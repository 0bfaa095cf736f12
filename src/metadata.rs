//! Package records and the two descriptor formats they are read from.
use vstd::prelude::*;
use crate::error::ParseError;
use crate::text::{first_token, first_token_of, has_prefix, second_token, second_token_of, starts_with};

verus! {

/// The metadata of one installed package.
#[derive(Clone, Debug, PartialEq)]
pub struct Metadata {
    pub name: String,
    pub version: String,
    pub requires_dist: Vec<String>,
}

/// What a [`Metadata`] holds, as character sequences.
pub ghost struct MetadataView {
    pub name: Seq<char>,
    pub version: Seq<char>,
    pub requires: Seq<Seq<char>>,
}

impl View for Metadata {
    type V = MetadataView;

    open spec fn view(&self) -> MetadataView {
        MetadataView {
            name: self.name@,
            version: self.version@,
            requires: self.requires_dist.deep_view(),
        }
    }
}

/// The `depends` field of a structured descriptor: one requirement or a list.
#[derive(Clone, Debug, PartialEq)]
pub enum Depends {
    One(String),
    Many(Vec<String>),
}

/// A structured descriptor as read from a package's record.
#[derive(Clone, Debug, PartialEq)]
pub struct Descriptor {
    pub name: String,
    pub version: String,
    pub depends: Depends,
}

/// The requirement entries of a `depends` field, before normalisation.
pub open spec fn depends_entries(d: Depends) -> Seq<Seq<char>> {
    match d {
        Depends::One(s) => seq![s@],
        Depends::Many(v) => v.deep_view(),
    }
}

/// Names of the interpreter and of low-level shared libraries, which are
/// never treated as requirements.
pub open spec fn is_low_level(s: Seq<char>) -> bool {
    has_prefix(s, "python"@) || has_prefix(s, "lib"@) || has_prefix(s, "_"@)
}

/// The requirement names kept from a list of `depends` entries.
pub open spec fn normalized(entries: Seq<Seq<char>>) -> Seq<Seq<char>> {
    entries.map_values(|e: Seq<char>| first_token(e)).filter(|t: Seq<char>| !is_low_level(t))
}

/// Whether `s` names the interpreter or a low-level library.
pub fn is_low_level_name(s: &str) -> (r: bool)
    ensures
        r == is_low_level(s@),
{
    starts_with(s, "python") || starts_with(s, "lib") || starts_with(s, "_")
}

/// Normalises a `depends` field: keeps the first whitespace-delimited word
/// of each entry and
/// drops the names of the interpreter and of low-level libraries.
pub fn normalize_depends(depends: &Depends) -> (r: Vec<String>)
    ensures
        r.deep_view() == normalized(depends_entries(*depends)),
{
    let ghost entries = depends_entries(*depends);
    let ghost words = entries.map_values(|e: Seq<char>| first_token(e));
    let ghost keep = |t: Seq<char>| !is_low_level(t);
    let mut out: Vec<String> = Vec::new();
    match depends {
        Depends::One(s) => {
            let w = String::from_str(first_token_of(s.as_str()));
            if !is_low_level_name(w.as_str()) {
                out.push(w);
            }
            proof {
                assert(words =~= seq![first_token(s@)]);
                reveal_with_fuel(Seq::filter, 2);
                assert(words.drop_last() =~= Seq::<Seq<char>>::empty());
                assert(out.deep_view() =~= words.filter(keep));
            }
        }
        Depends::Many(v) => {
            let mut i: usize = 0;
            while i < v.len()
                invariant
                    entries == v.deep_view(),
                    words == entries.map_values(|e: Seq<char>| first_token(e)),
                    keep == (|t: Seq<char>| !is_low_level(t)),
                    i <= v.len(),
                    out.deep_view() == words.take(i as int).filter(keep),
                decreases v.len() - i,
            {
                let w = String::from_str(first_token_of(v[i].as_str()));
                proof {
                    reveal(Seq::filter);
                    assert(words.take(i + 1).drop_last() =~= words.take(i as int));
                    assert(words.take(i + 1).last() == w@);
                }
                let ghost before = out.deep_view();
                let ghost wv = w@;
                assert(keep(wv) == !is_low_level(wv));
                if !is_low_level_name(w.as_str()) {
                    out.push(w);
                    assert(out.deep_view() =~= before.push(wv));
                }
                assert(out.deep_view() == words.take(i + 1).filter(keep));
                i = i + 1;
            }
            assert(words.take(i as int) =~= words);
        }
    }
    out
}


/// How a line of a line-oriented descriptor is read.
#[derive(Clone, Copy, Debug, PartialEq, Eq, Structural)]
pub enum LineKind {
    /// `Name <name>`
    Name,
    /// `Version <version>`
    Version,
    /// `Provides-Extra ...`: scanning ends here.
    Stop,
    /// `Requires-Dist <requirement> ...`
    Requirement,
    /// Any other line, ignored.
    Other,
}

pub open spec fn line_kind(l: Seq<char>) -> LineKind {
    if has_prefix(l, "Name"@) {
        LineKind::Name
    } else if has_prefix(l, "Version"@) {
        LineKind::Version
    } else if has_prefix(l, "Provides-Extra"@) {
        LineKind::Stop
    } else if has_prefix(l, "Requires-Dist"@) {
        LineKind::Requirement
    } else {
        LineKind::Other
    }
}

/// Index of the first `Provides-Extra` line, or the number of lines.
pub open spec fn stop_at(lines: Seq<Seq<char>>) -> nat
    decreases lines.len(),
{
    if lines.len() == 0 {
        0
    } else if line_kind(lines[0]) == LineKind::Stop {
        0
    } else {
        1 + stop_at(lines.drop_first())
    }
}

/// The value of a keyed line: its second whitespace-delimited word.
pub open spec fn value_of(l: Seq<char>) -> Seq<char> {
    second_token(l)
}

/// A line whose key asks for a value but which has none.
pub open spec fn lacks_value(l: Seq<char>) -> bool {
    line_kind(l) != LineKind::Other && line_kind(l) != LineKind::Stop && value_of(l).len() == 0
}

/// The values of the lines of kind `k` among `lines`, in order.
pub open spec fn values_in(lines: Seq<Seq<char>>, k: LineKind) -> Seq<Seq<char>> {
    lines.filter(|l: Seq<char>| line_kind(l) == k).map_values(|l: Seq<char>| value_of(l))
}

/// The values of the lines of kind `k` before the first `Provides-Extra` line.
pub open spec fn scanned_values(lines: Seq<Seq<char>>, k: LineKind) -> Seq<Seq<char>> {
    values_in(lines.take(stop_at(lines) as int), k)
}

/// Every keyed line before the first `Provides-Extra` line has a value.
pub open spec fn all_valued(lines: Seq<Seq<char>>) -> bool {
    forall|j: int| 0 <= j < stop_at(lines) ==> !lacks_value(#[trigger] lines[j])
}

/// Classifies a line of a line-oriented descriptor by its key.
pub fn classify_line(l: &str) -> (r: LineKind)
    ensures
        r == line_kind(l@),
{
    if starts_with(l, "Name") {
        LineKind::Name
    } else if starts_with(l, "Version") {
        LineKind::Version
    } else if starts_with(l, "Provides-Extra") {
        LineKind::Stop
    } else if starts_with(l, "Requires-Dist") {
        LineKind::Requirement
    } else {
        LineKind::Other
    }
}

proof fn lemma_values_step(lines: Seq<Seq<char>>, i: int, k: LineKind)
    requires
        0 <= i < lines.len(),
    ensures
        values_in(lines.take(i + 1), k) == if line_kind(lines[i]) == k {
            values_in(lines.take(i), k).push(value_of(lines[i]))
        } else {
            values_in(lines.take(i), k)
        },
{
    reveal(Seq::filter);
    let pred = |l: Seq<char>| line_kind(l) == k;
    assert(lines.take(i + 1).drop_last() =~= lines.take(i));
    let f = lines.take(i).filter(pred);
    if line_kind(lines[i]) == k {
        assert(f.push(lines[i]).map_values(|l: Seq<char>| value_of(l)) =~= f.map_values(
            |l: Seq<char>| value_of(l),
        ).push(value_of(lines[i])));
    }
}

proof fn lemma_first_stop(lines: Seq<Seq<char>>, i: nat)
    requires
        i <= lines.len(),
        forall|j: int| 0 <= j < i ==> line_kind(#[trigger] lines[j]) != LineKind::Stop,
        i < lines.len() ==> line_kind(lines[i as int]) == LineKind::Stop,
    ensures
        stop_at(lines) == i,
    decreases lines.len(),
{
    if lines.len() > 0 && line_kind(lines[0]) != LineKind::Stop {
        assert forall|j: int| 0 <= j < i - 1 implies line_kind(
            #[trigger] lines.drop_first()[j],
        ) != LineKind::Stop by {
            assert(lines.drop_first()[j] == lines[j + 1]);
        }
        lemma_first_stop(lines.drop_first(), (i - 1) as nat);
    }
}

proof fn lemma_stop_beyond(lines: Seq<Seq<char>>, i: nat)
    requires
        i < lines.len(),
        forall|j: int| 0 <= j <= i ==> line_kind(#[trigger] lines[j]) != LineKind::Stop,
    ensures
        i < stop_at(lines),
    decreases i,
{
    if i > 0 {
        assert forall|j: int| 0 <= j <= i - 1 implies line_kind(
            #[trigger] lines.drop_first()[j],
        ) != LineKind::Stop by {
            assert(lines.drop_first()[j] == lines[j + 1]);
        }
        lemma_stop_beyond(lines.drop_first(), (i - 1) as nat);
    }
    assert(line_kind(lines[0]) != LineKind::Stop);
}

impl Metadata {
    /// Reads a structured descriptor into a record.
    pub fn from_descriptor(descriptor: Descriptor) -> (r: Metadata)
        ensures
            r@ == (MetadataView {
                name: descriptor.name@,
                version: descriptor.version@,
                requires: normalized(depends_entries(descriptor.depends)),
            }),
    {
        let requires_dist = normalize_depends(&descriptor.depends);
        Metadata { name: descriptor.name, version: descriptor.version, requires_dist }
    }

    /// Reads a line-oriented descriptor, given as its lines. Lines are read in
    /// order up to the first `Provides-Extra` line; `Name` and `Version` lines
    /// give the name and the version (the last such line wins), and each
    /// `Requires-Dist` line adds its value to the requirements. The value of a
    /// line is its second whitespace-delimited word; a keyed line without one
    /// is an error.
    pub fn from_metadata_lines(lines: &Vec<String>) -> (r: Result<Metadata, ParseError>)
        ensures
            ({
                let ls = lines.deep_view();
                let names = scanned_values(ls, LineKind::Name);
                let versions = scanned_values(ls, LineKind::Version);
                match r {
                    Err(ParseError::MissingValue(j)) => {
                        &&& j < stop_at(ls)
                        &&& lacks_value(ls[j as int])
                        &&& forall|k: int| 0 <= k < j ==> !lacks_value(#[trigger] ls[k])
                    },
                    Err(ParseError::MissingName) => all_valued(ls) && names.len() == 0,
                    Err(ParseError::MissingVersion) => {
                        &&& all_valued(ls)
                        &&& names.len() > 0
                        &&& versions.len() == 0
                    },
                    Ok(m) => {
                        &&& all_valued(ls)
                        &&& names.len() > 0
                        &&& versions.len() > 0
                        &&& m@ == (MetadataView {
                            name: names.last(),
                            version: versions.last(),
                            requires: scanned_values(ls, LineKind::Requirement),
                        })
                    },
                }
            }),
    {
        let ghost ls = lines.deep_view();
        let n = lines.len();
        let mut name: Option<String> = None;
        let mut version: Option<String> = None;
        let mut requires_dist: Vec<String> = Vec::new();
        let mut stopped = false;
        let mut i: usize = 0;
        while i < n && !stopped
            invariant
                n == lines.len(),
                ls == lines.deep_view(),
                i <= n,
                stopped ==> i < n && line_kind(ls[i as int]) == LineKind::Stop,
                forall|j: int| 0 <= j < i ==> line_kind(#[trigger] ls[j]) != LineKind::Stop,
                forall|j: int| 0 <= j < i ==> !lacks_value(#[trigger] ls[j]),
                match name {
                    None => values_in(ls.take(i as int), LineKind::Name).len() == 0,
                    Some(v) => {
                        &&& values_in(ls.take(i as int), LineKind::Name).len() > 0
                        &&& v@ == values_in(ls.take(i as int), LineKind::Name).last()
                    },
                },
                match version {
                    None => values_in(ls.take(i as int), LineKind::Version).len() == 0,
                    Some(v) => {
                        &&& values_in(ls.take(i as int), LineKind::Version).len() > 0
                        &&& v@ == values_in(ls.take(i as int), LineKind::Version).last()
                    },
                },
                requires_dist.deep_view() == values_in(ls.take(i as int), LineKind::Requirement),
            decreases n - i, if stopped { 0int } else { 1int },
        {
            let line = lines[i].as_str();
            assert(line@ == ls[i as int]);
            let kind = classify_line(line);
            if kind == LineKind::Stop {
                stopped = true;
            } else {
                proof {
                    lemma_values_step(ls, i as int, LineKind::Name);
                    lemma_values_step(ls, i as int, LineKind::Version);
                    lemma_values_step(ls, i as int, LineKind::Requirement);
                }
                if kind != LineKind::Other {
                    let t = second_token_of(line);
                    if t.unicode_len() == 0 {
                        proof {
                            lemma_stop_beyond(ls, i as nat);
                        }
                        return Err(ParseError::MissingValue(i));
                    }
                    let value = String::from_str(t);
                    if kind == LineKind::Name {
                        name = Some(value);
                    } else if kind == LineKind::Version {
                        version = Some(value);
                    } else {
                        let ghost before = requires_dist.deep_view();
                        requires_dist.push(value);
                        assert(requires_dist.deep_view() =~= before.push(value_of(ls[i as int])));
                    }
                }
                i = i + 1;
            }
        }
        proof {
            lemma_first_stop(ls, i as nat);
        }
        match name {
            None => Err(ParseError::MissingName),
            Some(name) => match version {
                None => Err(ParseError::MissingVersion),
                Some(version) => Ok(Metadata { name, version, requires_dist }),
            },
        }
    }
}

} // verus!
