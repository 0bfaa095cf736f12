//! Character-level helpers on strings: prefixes, space-separated pieces,
//! whitespace-delimited words, trimming, splitting and lexicographic order.
use vstd::prelude::*;
use vstd::string::{StrSliceExecFns, StringExecFns};

verus! {

/// `s` begins with `p`.
pub open spec fn has_prefix(s: Seq<char>, p: Seq<char>) -> bool {
    p.len() <= s.len() && s.take(p.len() as int) == p
}

/// Index of the first space in `s`, or `s.len()` when there is none.
pub open spec fn space_at(s: Seq<char>) -> nat
    decreases s.len(),
{
    if s.len() == 0 {
        0
    } else if s[0] == ' ' {
        0
    } else {
        1 + space_at(s.drop_first())
    }
}

/// The piece of index `n` when `s` is cut at every single space, if `s` has
/// that many pieces.
pub open spec fn piece(s: Seq<char>, n: nat) -> Option<Seq<char>>
    decreases s.len(),
{
    let p = space_at(s);
    if n == 0 {
        Some(s.take(p as int))
    } else if p >= s.len() {
        None
    } else {
        piece(s.skip(p + 1 as int), (n - 1) as nat)
    }
}

/// Lexicographic order on character sequences, by code point.
pub open spec fn seq_lt(a: Seq<char>, b: Seq<char>) -> bool
    decreases a.len(),
{
    if a.len() == 0 {
        b.len() > 0
    } else if b.len() == 0 {
        false
    } else if a[0] != b[0] {
        a[0] < b[0]
    } else {
        seq_lt(a.drop_first(), b.drop_first())
    }
}

pub proof fn lemma_space_at_bound(s: Seq<char>)
    ensures
        space_at(s) <= s.len(),
        space_at(s) < s.len() ==> s[space_at(s) as int] == ' ',
        forall|j: int| 0 <= j < space_at(s) ==> s[j] != ' ',
    decreases s.len(),
{
    if s.len() > 0 && s[0] != ' ' {
        lemma_space_at_bound(s.drop_first());
        assert forall|j: int| 0 <= j < space_at(s) implies s[j] != ' ' by {
            if j > 0 {
                assert(s[j] == s.drop_first()[j - 1]);
            }
        }
    }
}

/// Whether `s` begins with `prefix`.
pub fn starts_with(s: &str, prefix: &str) -> (r: bool)
    ensures
        r == has_prefix(s@, prefix@),
{
    let n = prefix.unicode_len();
    if n > s.unicode_len() {
        return false;
    }
    let mut i: usize = 0;
    while i < n
        invariant
            n == prefix@.len(),
            n <= s@.len(),
            i <= n,
            s@.take(i as int) == prefix@.take(i as int),
        decreases n - i,
    {
        if s.get_char(i) != prefix.get_char(i) {
            assert(s@.take(n as int)[i as int] != prefix@[i as int]);
            return false;
        }
        assert(s@.take(i + 1) =~= s@.take(i as int).push(s@[i as int]));
        assert(prefix@.take(i + 1) =~= prefix@.take(i as int).push(prefix@[i as int]));
        i = i + 1;
    }
    assert(prefix@.take(n as int) =~= prefix@);
    true
}

/// Index of the first space in `s`, or its length when it holds none.
pub(crate) fn find_space(s: &str) -> (r: usize)
    ensures
        r == space_at(s@),
{
    let n = s.unicode_len();
    let mut i: usize = 0;
    assert(s@.skip(0) =~= s@);
    while i < n
        invariant
            n == s@.len(),
            i <= n,
            space_at(s@) == i + space_at(s@.skip(i as int)),
        decreases n - i,
    {
        if s.get_char(i) == ' ' {
            assert(s@.skip(i as int)[0] == ' ');
            return i;
        }
        assert(s@.skip(i as int).drop_first() =~= s@.skip(i + 1));
        i = i + 1;
    }
    assert(s@.skip(i as int).len() == 0);
    i
}

/// The piece of index `n` of `string` cut at single spaces; `None` when the
/// string is empty or has fewer than `n + 1` pieces.
pub fn split_and_take_n_elem(string: &str, n: usize) -> (r: Option<&str>)
    ensures
        string@.len() == 0 ==> r is None,
        string@.len() > 0 ==> match r {
            Some(t) => piece(string@, n as nat) == Some(t@),
            None => piece(string@, n as nat) is None,
        },
{
    if string.unicode_len() == 0 {
        return None;
    }
    let mut cur: &str = string;
    let mut k: usize = n;
    loop
        invariant
            string@.len() > 0,
            piece(string@, n as nat) == piece(cur@, k as nat),
        decreases cur@.len(),
    {
        let p = find_space(cur);
        proof {
            lemma_space_at_bound(cur@);
        }
        let len = cur.unicode_len();
        if k == 0 {
            return Some(cur.substring_char(0, p));
        }
        if p >= len {
            return None;
        }
        cur = cur.substring_char(p + 1, len);
        k = k - 1;
    }
}

/// Every element of `v` is below every later one.
pub open spec fn strictly_sorted(v: Seq<Seq<char>>) -> bool {
    forall|i: int, j: int| 0 <= i < j < v.len() ==> seq_lt(#[trigger] v[i], #[trigger] v[j])
}

pub proof fn lemma_lt_irreflexive(a: Seq<char>)
    ensures
        !seq_lt(a, a),
    decreases a.len(),
{
    if a.len() > 0 {
        lemma_lt_irreflexive(a.drop_first());
    }
}

pub proof fn lemma_lt_transitive(a: Seq<char>, b: Seq<char>, c: Seq<char>)
    requires
        seq_lt(a, b),
        seq_lt(b, c),
    ensures
        seq_lt(a, c),
    decreases a.len(),
{
    if a.len() > 0 && b.len() > 0 && c.len() > 0 && a[0] == b[0] && b[0] == c[0] {
        lemma_lt_transitive(a.drop_first(), b.drop_first(), c.drop_first());
    }
}

pub proof fn lemma_lt_total(a: Seq<char>, b: Seq<char>)
    requires
        a != b,
    ensures
        seq_lt(a, b) || seq_lt(b, a),
    decreases a.len(),
{
    if a.len() == 0 {
        if b.len() == 0 {
            assert(a =~= b);
        }
    } else if b.len() > 0 && a[0] == b[0] {
        if a.drop_first() == b.drop_first() {
            assert(a =~= seq![a[0]] + a.drop_first());
            assert(b =~= seq![b[0]] + b.drop_first());
        }
        lemma_lt_total(a.drop_first(), b.drop_first());
    }
}

pub proof fn lemma_lt_asymmetric(a: Seq<char>, b: Seq<char>)
    requires
        seq_lt(a, b),
    ensures
        !seq_lt(b, a),
{
    if seq_lt(b, a) {
        lemma_lt_transitive(a, b, a);
        lemma_lt_irreflexive(a);
    }
}

/// Whether `a` comes before `b` in lexicographic order.
pub fn str_lt(a: &str, b: &str) -> (r: bool)
    ensures
        r == seq_lt(a@, b@),
{
    let na = a.unicode_len();
    let nb = b.unicode_len();
    let mut i: usize = 0;
    assert(a@.skip(0) =~= a@);
    assert(b@.skip(0) =~= b@);
    loop
        invariant
            na == a@.len(),
            nb == b@.len(),
            i <= na,
            i <= nb,
            seq_lt(a@, b@) == seq_lt(a@.skip(i as int), b@.skip(i as int)),
        decreases na - i,
    {
        if i == na {
            return i < nb;
        }
        if i == nb {
            return false;
        }
        let ca = a.get_char(i);
        let cb = b.get_char(i);
        assert(a@.skip(i as int)[0] == ca);
        assert(b@.skip(i as int)[0] == cb);
        if ca != cb {
            return ca < cb;
        }
        assert(a@.skip(i as int).drop_first() =~= a@.skip(i + 1));
        assert(b@.skip(i as int).drop_first() =~= b@.skip(i + 1));
        i = i + 1;
    }
}

/// Whether `a` and `b` hold the same characters.
pub fn str_eq(a: &str, b: &str) -> (r: bool)
    ensures
        r == (a@ == b@),
{
    let n = a.unicode_len();
    if n != b.unicode_len() {
        return false;
    }
    let mut i: usize = 0;
    while i < n
        invariant
            n == a@.len(),
            n == b@.len(),
            i <= n,
            forall|j: int| 0 <= j < i ==> a@[j] == b@[j],
        decreases n - i,
    {
        if a.get_char(i) != b.get_char(i) {
            return false;
        }
        i = i + 1;
    }
    assert(a@ =~= b@);
    true
}

/// Inserts `x` into a strictly sorted vector that does not hold it, keeping
/// the vector strictly sorted.
pub fn insert_sorted(v: &mut Vec<String>, x: String)
    requires
        strictly_sorted(old(v).deep_view()),
        !old(v).deep_view().contains(x@),
    ensures
        strictly_sorted(final(v).deep_view()),
        forall|y: Seq<char>|
            #![trigger final(v).deep_view().contains(y)]
            final(v).deep_view().contains(y) <==> (old(v).deep_view().contains(y) || y == x@),
        final(v).deep_view().len() == old(v).deep_view().len() + 1,
{
    let ghost s = v.deep_view();
    let mut pos: usize = 0;
    while pos < v.len()
        invariant
            s == v.deep_view(),
            !s.contains(x@),
            pos <= v.len(),
            forall|k: int| 0 <= k < pos ==> seq_lt(#[trigger] s[k], x@),
        ensures
            s == v.deep_view(),
            pos <= v.len(),
            forall|k: int| 0 <= k < pos ==> seq_lt(#[trigger] s[k], x@),
            pos < v.len() ==> seq_lt(x@, s[pos as int]),
        decreases v.len() - pos,
    {
        if str_lt(x.as_str(), v[pos].as_str()) {
            break;
        }
        proof {
            assert(s[pos as int] == v[pos as int]@);
            if s[pos as int] == x@ {
                assert(s.contains(x@));
            }
            lemma_lt_total(s[pos as int], x@);
        }
        pos = pos + 1;
    }
    let ghost xv = x@;
    v.insert(pos, x);
    proof {
        let t = v.deep_view();
        assert(t =~= s.insert(pos as int, xv));
        assert forall|i: int, j: int| 0 <= i < j < t.len() implies seq_lt(
            #[trigger] t[i],
            #[trigger] t[j],
        ) by {
            if j < pos {
                assert(seq_lt(s[i], s[j]));
            } else if j == pos {
                assert(seq_lt(s[i], xv));
            } else if i < pos {
                assert(seq_lt(s[i], s[j - 1]));
            } else if i == pos {
                if j - 1 > pos {
                    assert(seq_lt(s[pos as int], s[j - 1]));
                    lemma_lt_transitive(xv, s[pos as int], s[j - 1]);
                }
            } else {
                assert(seq_lt(s[i - 1], s[j - 1]));
            }
        }
        assert forall|y: Seq<char>| t.contains(y) <==> (s.contains(y) || y == xv) by {
            if t.contains(y) {
                let k = choose|k: int| 0 <= k < t.len() && t[k] == y;
                if k < pos {
                    assert(s[k] == y);
                } else if k > pos {
                    assert(s[k - 1] == y);
                }
            }
            if s.contains(y) {
                let k = choose|k: int| 0 <= k < s.len() && s[k] == y;
                if k < pos {
                    assert(t[k] == y);
                } else {
                    assert(t[k + 1] == y);
                }
            }
            if y == xv {
                assert(t[pos as int] == y);
            }
        }
    }
}

pub proof fn lemma_sorted_no_duplicates(v: Seq<Seq<char>>)
    requires
        strictly_sorted(v),
    ensures
        v.no_duplicates(),
{
    assert forall|i: int, j: int| 0 <= i < v.len() && 0 <= j < v.len() && i != j implies v[i]
        != v[j] by {
        if i < j {
            assert(seq_lt(v[i], v[j]));
        } else {
            assert(seq_lt(v[j], v[i]));
        }
        lemma_lt_irreflexive(v[i]);
    }
}

/// The lines of `ls` joined by newlines.
pub open spec fn joined(ls: Seq<Seq<char>>) -> Seq<char>
    decreases ls.len(),
{
    if ls.len() == 0 {
        Seq::empty()
    } else if ls.len() == 1 {
        ls[0]
    } else {
        joined(ls.drop_last()) + "\n"@ + ls.last()
    }
}

/// The lines of `lines` joined by newlines.
pub fn join_lines(lines: &Vec<String>) -> (r: String)
    ensures
        r@ == joined(lines.deep_view()),
{
    let ghost ls = lines.deep_view();
    if lines.len() == 0 {
        return String::new();
    }
    let mut out = String::from_str(lines[0].as_str());
    assert(ls.take(1).drop_last() =~= Seq::<Seq<char>>::empty());
    let mut i: usize = 1;
    while i < lines.len()
        invariant
            ls == lines.deep_view(),
            1 <= i <= ls.len(),
            out@ == joined(ls.take(i as int)),
        decreases ls.len() - i,
    {
        out.append("\n");
        out.append(lines[i].as_str());
        assert(ls.take(i + 1).drop_last() =~= ls.take(i as int));
        i = i + 1;
    }
    assert(ls.take(i as int) =~= ls);
    out
}

/// An ASCII whitespace character: space, tab, line feed, form feed or
/// carriage return.
pub open spec fn is_blank(c: char) -> bool {
    c == ' ' || c == '\t' || c == '\n' || c == '\x0C' || c == '\r'
}

pub open spec fn trim_start(s: Seq<char>) -> Seq<char>
    decreases s.len(),
{
    if s.len() > 0 && is_blank(s[0]) {
        trim_start(s.drop_first())
    } else {
        s
    }
}

pub open spec fn trim_end(s: Seq<char>) -> Seq<char>
    decreases s.len(),
{
    if s.len() > 0 && is_blank(s.last()) {
        trim_end(s.drop_last())
    } else {
        s
    }
}

/// `s` without its leading and trailing ASCII whitespace.
pub open spec fn trimmed(s: Seq<char>) -> Seq<char> {
    trim_end(trim_start(s))
}

/// Index of the first occurrence of `sep` in `s`, or `s.len()` when there is
/// none.
pub open spec fn find_at(s: Seq<char>, sep: Seq<char>) -> nat
    decreases s.len(),
{
    if s.len() < sep.len() || s.len() == 0 {
        s.len()
    } else if s.take(sep.len() as int) == sep {
        0
    } else {
        1 + find_at(s.drop_first(), sep)
    }
}

/// The pieces of `s` between the occurrences of the non-empty `sep`, found
/// from the left.
pub open spec fn split_on(s: Seq<char>, sep: Seq<char>) -> Seq<Seq<char>>
    decreases s.len(),
{
    let i = find_at(s, sep);
    if sep.len() == 0 || i + sep.len() > s.len() {
        seq![s]
    } else {
        seq![s.take(i as int)] + split_on(s.skip((i + sep.len()) as int), sep)
    }
}

pub proof fn lemma_find_at_bound(s: Seq<char>, sep: Seq<char>)
    requires
        sep.len() > 0,
    ensures
        find_at(s, sep) <= s.len(),
        find_at(s, sep) + sep.len() <= s.len() ==> s.subrange(
            find_at(s, sep) as int,
            (find_at(s, sep) + sep.len()) as int,
        ) == sep,
    decreases s.len(),
{
    if s.len() >= sep.len() && s.take(sep.len() as int) != sep {
        lemma_find_at_bound(s.drop_first(), sep);
        let i = find_at(s.drop_first(), sep);
        if i + 1 + sep.len() <= s.len() {
            assert(s.subrange((i + 1) as int, (i + 1 + sep.len()) as int) =~= s.drop_first().subrange(
                i as int,
                (i + sep.len()) as int,
            ));
        }
    } else if s.len() >= sep.len() {
        assert(s.subrange(0, sep.len() as int) =~= s.take(sep.len() as int));
    }
}

/// Whether `c` is ASCII whitespace.
pub fn is_blank_char(c: char) -> (r: bool)
    ensures
        r == is_blank(c),
{
    c == ' ' || c == '\t' || c == '\n' || c == '\x0C' || c == '\r'
}

/// `s` without its leading and trailing ASCII whitespace.
pub fn trim_blank(s: &str) -> (r: &str)
    ensures
        r@ == trimmed(s@),
{
    let n = s.unicode_len();
    let mut a: usize = 0;
    assert(s@.skip(0) =~= s@);
    while a < n
        invariant
            n == s@.len(),
            a <= n,
            trim_start(s@) == trim_start(s@.skip(a as int)),
        ensures
            a <= n,
            trim_start(s@) == trim_start(s@.skip(a as int)),
            a < n ==> !is_blank(s@[a as int]),
        decreases n - a,
    {
        if !is_blank_char(s.get_char(a)) {
            break;
        }
        assert(s@.skip(a as int).drop_first() =~= s@.skip(a + 1));
        a = a + 1;
    }
    proof {
        if a < n {
            assert(s@.skip(a as int)[0] == s@[a as int]);
        }
    }
    let mut b: usize = n;
    let ghost t = s@.skip(a as int);
    assert(t.take(t.len() as int) =~= t);
    while b > a
        invariant
            n == s@.len(),
            a <= b <= n,
            t == s@.skip(a as int),
            trim_end(t) == trim_end(t.take(b - a)),
        ensures
            a <= b <= n,
            trim_end(t) == trim_end(t.take(b - a)),
            b > a ==> !is_blank(s@[b - 1]),
        decreases b,
    {
        if !is_blank_char(s.get_char(b - 1)) {
            break;
        }
        assert(t.take(b - a).drop_last() =~= t.take(b - 1 - a));
        b = b - 1;
    }
    proof {
        if b > a {
            assert(t.take(b - a).last() == s@[b - 1]);
        } else {
            assert(t.take(0).len() == 0);
        }
        if a < n {
            assert(trim_start(s@) == t);
        } else {
            assert(t.len() == 0);
        }
        assert(t.take(b - a) =~= s@.subrange(a as int, b as int));
    }
    s.substring_char(a, b)
}

/// Index of the first occurrence of the non-empty `sep` in `s`, or the
/// length of `s` when there is none.
pub fn find_str(s: &str, sep: &str) -> (r: usize)
    requires
        sep@.len() > 0,
    ensures
        r == find_at(s@, sep@),
{
    let n = s.unicode_len();
    let k = sep.unicode_len();
    let mut i: usize = 0;
    assert(s@.skip(0) =~= s@);
    while i < n
        invariant
            n == s@.len(),
            k == sep@.len(),
            k > 0,
            i <= n,
            find_at(s@, sep@) == i + find_at(s@.skip(i as int), sep@),
        decreases n - i,
    {
        let ghost t = s@.skip(i as int);
        if n - i < k {
            return n;
        }
        if str_eq(s.substring_char(i, i + k), sep) {
            assert(t.take(k as int) =~= s@.subrange(i as int, i + k));
            return i;
        }
        assert(t.take(k as int) =~= s@.subrange(i as int, i + k));
        assert(t.drop_first() =~= s@.skip(i + 1));
        i = i + 1;
    }
    assert(s@.skip(i as int).len() == 0);
    n
}

/// The pieces of `s` between the occurrences of the non-empty `sep`.
pub fn split_str(s: &str, sep: &str) -> (r: Vec<String>)
    requires
        sep@.len() > 0,
    ensures
        r.deep_view() == split_on(s@, sep@),
{
    let k = sep.unicode_len();
    let mut out: Vec<String> = Vec::new();
    let mut cur: &str = s;
    loop
        invariant
            k == sep@.len(),
            k > 0,
            split_on(s@, sep@) == out.deep_view() + split_on(cur@, sep@),
        decreases cur@.len(),
    {
        let i = find_str(cur, sep);
        proof {
            lemma_find_at_bound(cur@, sep@);
        }
        let len = cur.unicode_len();
        if k > len || i > len - k {
            let ghost before = out.deep_view();
            out.push(String::from_str(cur));
            assert(out.deep_view() =~= before + split_on(cur@, sep@));
            return out;
        }
        let ghost before = out.deep_view();
        let ghost old_cur = cur@;
        out.push(String::from_str(cur.substring_char(0, i)));
        cur = cur.substring_char(i + k, len);
        assert(split_on(old_cur, sep@) == seq![old_cur.take(i as int)] + split_on(cur@, sep@));
        assert(out.deep_view() + split_on(cur@, sep@) =~= before + split_on(old_cur, sep@));
    }
}

/// Index of the first ASCII whitespace character in `s`, or `s.len()` when
/// there is none.
pub open spec fn blank_at(s: Seq<char>) -> nat
    decreases s.len(),
{
    if s.len() == 0 {
        0
    } else if is_blank(s[0]) {
        0
    } else {
        1 + blank_at(s.drop_first())
    }
}

/// The first whitespace-delimited word of `s`; empty when `s` is all
/// whitespace.
pub open spec fn first_token(s: Seq<char>) -> Seq<char> {
    trim_start(s).take(blank_at(trim_start(s)) as int)
}

/// What follows the first whitespace-delimited word of `s`.
pub open spec fn after_first_token(s: Seq<char>) -> Seq<char> {
    trim_start(s).skip(blank_at(trim_start(s)) as int)
}

/// The second whitespace-delimited word of `s`; empty when there is none.
pub open spec fn second_token(s: Seq<char>) -> Seq<char> {
    first_token(after_first_token(s))
}

pub proof fn lemma_blank_at_bound(s: Seq<char>)
    ensures
        blank_at(s) <= s.len(),
    decreases s.len(),
{
    if s.len() > 0 && !is_blank(s[0]) {
        lemma_blank_at_bound(s.drop_first());
    }
}

/// The first index at or after `i` that holds no ASCII whitespace, or the
/// length of `s`.
fn skip_blanks(s: &str, i: usize) -> (j: usize)
    requires
        i <= s@.len(),
    ensures
        i <= j <= s@.len(),
        trim_start(s@.skip(i as int)) == s@.skip(j as int),
{
    let n = s.unicode_len();
    let mut j: usize = i;
    while j < n
        invariant
            n == s@.len(),
            i <= j <= n,
            trim_start(s@.skip(i as int)) == trim_start(s@.skip(j as int)),
        ensures
            i <= j <= n,
            trim_start(s@.skip(i as int)) == trim_start(s@.skip(j as int)),
            j < n ==> !is_blank(s@[j as int]),
        decreases n - j,
    {
        if !is_blank_char(s.get_char(j)) {
            break;
        }
        assert(s@.skip(j as int).drop_first() =~= s@.skip(j + 1));
        j = j + 1;
    }
    if j < n {
        assert(s@.skip(j as int)[0] == s@[j as int]);
    } else {
        assert(s@.skip(j as int).len() == 0);
    }
    j
}

/// The end of the word that starts at `j`: the first index at or after `j`
/// that holds ASCII whitespace, or the length of `s`.
fn word_end(s: &str, j: usize) -> (k: usize)
    requires
        j <= s@.len(),
    ensures
        j <= k <= s@.len(),
        k == j + blank_at(s@.skip(j as int)),
{
    let n = s.unicode_len();
    let mut k: usize = j;
    while k < n
        invariant
            n == s@.len(),
            j <= k <= n,
            blank_at(s@.skip(j as int)) == (k - j) + blank_at(s@.skip(k as int)),
        ensures
            j <= k <= n,
            blank_at(s@.skip(j as int)) == (k - j) + blank_at(s@.skip(k as int)),
            k < n ==> is_blank(s@[k as int]),
        decreases n - k,
    {
        if is_blank_char(s.get_char(k)) {
            break;
        }
        assert(s@.skip(k as int)[0] == s@[k as int]);
        assert(s@.skip(k as int).drop_first() =~= s@.skip(k + 1));
        k = k + 1;
    }
    if k < n {
        assert(s@.skip(k as int)[0] == s@[k as int]);
    } else {
        assert(s@.skip(k as int).len() == 0);
    }
    k
}

/// The bounds of the first whitespace-delimited word of `s` from index `i`
/// on.
fn token_bounds(s: &str, i: usize) -> (r: (usize, usize))
    requires
        i <= s@.len(),
    ensures
        i <= r.0 <= r.1 <= s@.len(),
        first_token(s@.skip(i as int)) == s@.subrange(r.0 as int, r.1 as int),
        after_first_token(s@.skip(i as int)) == s@.skip(r.1 as int),
{
    let j = skip_blanks(s, i);
    let k = word_end(s, j);
    let ghost t = s@.skip(j as int);
    assert(t.take((k - j) as int) =~= s@.subrange(j as int, k as int));
    assert(t.skip((k - j) as int) =~= s@.skip(k as int));
    (j, k)
}

/// The first whitespace-delimited word of `s`, empty when there is none.
pub fn first_token_of(s: &str) -> (r: &str)
    ensures
        r@ == first_token(s@),
{
    assert(s@.skip(0) =~= s@);
    let (a, b) = token_bounds(s, 0);
    s.substring_char(a, b)
}

/// The second whitespace-delimited word of `s`, empty when there is none.
pub fn second_token_of(s: &str) -> (r: &str)
    ensures
        r@ == second_token(s@),
{
    assert(s@.skip(0) =~= s@);
    let (_, b) = token_bounds(s, 0);
    let (c, d) = token_bounds(s, b);
    s.substring_char(c, d)
}

} // verus!
