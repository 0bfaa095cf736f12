//! Reading the output of `conda info`, and version extraction from free text.
use vstd::prelude::*;
use vstd::string::StrSliceExecFns;
use crate::text::{split_on, split_str, trim_blank, trimmed};

verus! {

/// A version number: three dot-separated runs of digits.
pub const VERSION_PATTERN: &'static str = "(?P<major>\\d+)\\.(?P<minor>\\d+)\\.(?P<patch>\\d+)";

/// Whether the regex crate compiles `pattern` under its default limits.
pub uninterp spec fn regex_compiles(pattern: Seq<char>) -> bool;

/// The leftmost-first match of the compiled `pattern` in `text`, if any.
pub uninterp spec fn regex_find(pattern: Seq<char>, text: Seq<char>) -> Option<Seq<char>>;

/// Relies on `regex::Regex::new` (which fails on an invalid or oversized
/// pattern), then on `Regex::find` and `Match::as_str`: the text of the first
/// match, which is a contiguous piece of the haystack.
#[verifier::external_body]
fn find_first(pattern: &str, text: &str) -> (r: Option<Option<String>>)
    ensures
        r is Some <==> regex_compiles(pattern@),
        match r {
            Some(Some(m)) => {
                &&& regex_find(pattern@, text@) == Some(m@)
                &&& exists|i: int, j: int| 0 <= i <= j <= text@.len() && m@ == text@.subrange(i, j)
            },
            Some(None) => regex_find(pattern@, text@) is None,
            None => true,
        },
{
    match regex::Regex::new(pattern) {
        Ok(re) => Some(re.find(text).map(|m| m.as_str().to_string())),
        Err(_) => None,
    }
}

/// The first version number (`<digits>.<digits>.<digits>`) in `text`, if any.
pub fn extract_version(text: &str) -> (r: Option<String>)
    ensures
        match r {
            Some(v) => regex_compiles(VERSION_PATTERN@) && regex_find(VERSION_PATTERN@, text@)
                == Some(v@),
            None => !regex_compiles(VERSION_PATTERN@) || regex_find(VERSION_PATTERN@, text@) is None,
        },
{
    match find_first(VERSION_PATTERN, text) {
        Some(found) => found,
        None => None,
    }
}

/// A setting and its values, as character sequences.
pub type EntryView = (Seq<char>, Seq<Seq<char>>);

pub open spec fn entries_view(v: Seq<(String, Vec<String>)>) -> Seq<EntryView> {
    v.map_values(|e: (String, Vec<String>)| (e.0@, e.1.deep_view()))
}

/// No two entries share a key.
pub open spec fn keys_unique(es: Seq<EntryView>) -> bool {
    forall|i: int, j: int|
        0 <= i < es.len() && 0 <= j < es.len() && i != j ==> #[trigger] es[i].0 != #[trigger] es[j].0
}

pub open spec fn has_key(es: Seq<EntryView>, k: Seq<char>) -> bool {
    exists|i: int| 0 <= i < es.len() && #[trigger] es[i].0 == k
}

/// `es` with `v` added to the values of key `k`; a new key comes last.
pub open spec fn add_value(es: Seq<EntryView>, k: Seq<char>, v: Seq<char>) -> Seq<EntryView> {
    if has_key(es, k) {
        let i = choose|i: int| 0 <= i < es.len() && #[trigger] es[i].0 == k;
        es.update(i, (k, es[i].1.push(v)))
    } else {
        es.push((k, seq![v]))
    }
}

/// Reads one trimmed line, given the entries so far and the key of the last
/// `key : value` line. A blank line changes nothing; `key : value` adds the
/// value to the key; a line without ` : ` adds itself to the last key; a line
/// with more than one ` : `, or a bare value before any key, is unreadable.
pub open spec fn info_step(es: Seq<EntryView>, key: Option<Seq<char>>, t: Seq<char>) -> Option<
    (Seq<EntryView>, Option<Seq<char>>),
> {
    let parts = split_on(t, " : "@);
    if t.len() == 0 {
        Some((es, key))
    } else if parts.len() == 2 {
        Some((add_value(es, parts[0], parts[1]), Some(parts[0])))
    } else if parts.len() == 1 {
        match key {
            Some(k) => Some((add_value(es, k, parts[0]), Some(k))),
            None => None,
        }
    } else {
        None
    }
}

/// The entries and the last key after reading `lines` in order.
pub open spec fn info_of(lines: Seq<Seq<char>>) -> Option<(Seq<EntryView>, Option<Seq<char>>)>
    decreases lines.len(),
{
    if lines.len() == 0 {
        Some((Seq::empty(), None))
    } else {
        match info_of(lines.drop_last()) {
            Some((es, key)) => info_step(es, key, trimmed(lines.last())),
            None => None,
        }
    }
}

/// The settings printed by `conda info`, one entry per key in order of
/// first appearance, or `None` when a line cannot be read.
pub open spec fn conda_info(text: Seq<char>) -> Option<Seq<EntryView>> {
    match info_of(split_on(text, "\n"@)) {
        Some((es, _)) => Some(es),
        None => None,
    }
}

proof fn lemma_info_fails_early(lines: Seq<Seq<char>>, i: int, j: int)
    requires
        0 <= i <= j <= lines.len(),
        info_of(lines.take(i)) is None,
    ensures
        info_of(lines.take(j)) is None,
    decreases j - i,
{
    if j > i {
        lemma_info_fails_early(lines, i, j - 1);
        assert(lines.take(j).drop_last() =~= lines.take(j - 1));
    }
}

/// Adds `value` to the values of `key`, appending a new entry for a new key.
fn add_entry_value(entries: &mut Vec<(String, Vec<String>)>, key: String, value: String)
    requires
        keys_unique(entries_view(old(entries)@)),
    ensures
        keys_unique(entries_view(final(entries)@)),
        entries_view(final(entries)@) == add_value(entries_view(old(entries)@), key@, value@),
{
    let ghost es = entries_view(entries@);
    let mut i: usize = 0;
    while i < entries.len()
        invariant
            es == entries_view(entries@),
            es == entries_view(old(entries)@),
            keys_unique(es),
            i <= entries.len(),
            forall|k: int| 0 <= k < i ==> es[k].0 != key@,
        decreases entries.len() - i,
    {
        if crate::text::str_eq(entries[i].0.as_str(), key.as_str()) {
            assert(es[i as int].0 == key@);
            assert(has_key(es, key@));
            let ghost c = choose|c: int| 0 <= c < es.len() && #[trigger] es[c].0 == key@;
            assert(c == i);
            let ghost before = entries@;
            let (k, mut values) = entries.remove(i);
            assert(entries@ == before.remove(i as int));
            let ghost vs = values.deep_view();
            let ghost vv = value@;
            assert(k@ == key@);
            assert(vs == es[i as int].1);
            values.push(value);
            assert(values.deep_view() =~= vs.push(vv));
            entries.insert(i, (k, values));
            assert(entries_view(entries@) =~= es.update(i as int, (key@, es[i as int].1.push(value@))));
            assert(add_value(es, key@, vv) == es.update(i as int, (key@, es[i as int].1.push(vv))));
            return;
        }
        i = i + 1;
    }
    assert(!has_key(es, key@));
    let ghost vv = value@;
    let mut values: Vec<String> = Vec::new();
    values.push(value);
    assert(values.deep_view() =~= seq![vv]);
    entries.push((key, values));
    assert(entries_view(entries@) =~= es.push((key@, seq![vv])));
}

/// The settings printed by `conda info`: each `key : value` line starts or
/// extends the values of its key, and each following line without ` : `
/// adds to the same key; blank lines are skipped and lines are trimmed.
/// `None` when a line holds more than one ` : `, or a value comes before
/// any key.
pub fn get_hashmap_from_conda_info_stdout(stdout: &str) -> (r: Option<Vec<(String, Vec<String>)>>)
    ensures
        match r {
            Some(v) => conda_info(stdout@) == Some(entries_view(v@)),
            None => conda_info(stdout@) is None,
        },
{
    proof {
        reveal_strlit("\n");
        reveal_strlit(" : ");
    }
    let lines = split_str(stdout, "\n");
    let ghost ls = lines.deep_view();
    let mut entries: Vec<(String, Vec<String>)> = Vec::new();
    let mut key: Option<String> = None;
    let mut i: usize = 0;
    assert(ls.take(0) =~= Seq::<Seq<char>>::empty());
    assert(entries_view(entries@) =~= Seq::<EntryView>::empty());
    while i < lines.len()
        invariant
            ls == lines.deep_view(),
            ls == split_on(stdout@, "\n"@),
            i <= ls.len(),
            keys_unique(entries_view(entries@)),
            info_of(ls.take(i as int)) == Some(
                (
                    entries_view(entries@),
                    match key {
                        Some(k) => Some(k@),
                        None => None::<Seq<char>>,
                    },
                ),
            ),
        decreases ls.len() - i,
    {
        assert(ls.take(i + 1).drop_last() =~= ls.take(i as int));
        assert(ls.take(i + 1).last() == lines[i as int]@);
        let t = trim_blank(lines[i].as_str());
        if t.unicode_len() > 0 {
            proof {
                reveal_strlit(" : ");
            }
            let parts = split_str(t, " : ");
            if parts.len() == 2 {
                let k = parts[0].clone();
                add_entry_value(&mut entries, parts[0].clone(), parts[1].clone());
                key = Some(k);
            } else if parts.len() == 1 {
                match &key {
                    Some(k) => {
                        add_entry_value(&mut entries, k.clone(), parts[0].clone());
                    },
                    None => {
                        proof {
                            lemma_info_fails_early(ls, i + 1, ls.len() as int);
                            assert(ls.take(ls.len() as int) =~= ls);
                        }
                        return None;
                    },
                }
            } else {
                proof {
                    lemma_info_fails_early(ls, i + 1, ls.len() as int);
                    assert(ls.take(ls.len() as int) =~= ls);
                }
                return None;
            }
        }
        i = i + 1;
    }
    assert(ls.take(i as int) =~= ls);
    Some(entries)
}

} // verus!
