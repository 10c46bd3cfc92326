//! The list of known DGA domains: exact names, and wildcard entries `*.w`
//! that cover `w` and every name below it.
use vstd::prelude::*;
use vstd::hash_set::StringHashSet;
use crate::text::{
    chars_of, line_chars, lines_of, lowercase, normalize_domain, normalized, string_of,
    string_set, strip_trailing_dots, to_lowercase, trim_bounds, trimmed, ascii_lower,
    ascii_lower_char, ascii_normalized, is_ascii_text, is_white_space, lemma_ascii_lower,
    lemma_ascii_lower_char, lemma_strip_dots_ascii_lower, law_trimmed_has_no_outer_whitespace,
    lemma_lines_ascii, law_ascii_case_ignored,
};

verus! {

/// What a line of the list file contributes: nothing for a blank line or a
/// `#` comment; `(true, w)` for a wildcard line `*.w`; `(false, e)` for an
/// exact entry `e`.  Lines are trimmed first.
pub open spec fn entry_of(line: Seq<char>) -> Option<(bool, Seq<char>)> {
    let e = trimmed(line);
    if e.len() == 0 || e[0] == '#' {
        None
    } else if e.len() >= 2 && e[0] == '*' && e[1] == '.' {
        Some((true, e.skip(2)))
    } else {
        Some((false, e))
    }
}

/// The exact entries of `lines` as written (trimmed), in file order.
pub open spec fn raw_exact_entries(lines: Seq<Seq<char>>) -> Seq<Seq<char>>
    decreases lines.len(),
{
    if lines.len() == 0 {
        Seq::empty()
    } else {
        let prev = raw_exact_entries(lines.drop_last());
        match entry_of(lines.last()) {
            Some((false, e)) => prev.push(e),
            _ => prev,
        }
    }
}

/// The wildcard suffixes of `lines` as written, in file order.
pub open spec fn raw_wildcard_entries(lines: Seq<Seq<char>>) -> Seq<Seq<char>>
    decreases lines.len(),
{
    if lines.len() == 0 {
        Seq::empty()
    } else {
        let prev = raw_wildcard_entries(lines.drop_last());
        match entry_of(lines.last()) {
            Some((true, w)) => prev.push(w),
            _ => prev,
        }
    }
}

/// Each of `es`, lower-cased.
pub open spec fn lowercased(es: Seq<Seq<char>>) -> Seq<Seq<char>> {
    es.map_values(|e: Seq<char>| lowercase(e))
}

/// The lower-cased exact entries of `lines`, in file order.
pub open spec fn exact_entries(lines: Seq<Seq<char>>) -> Seq<Seq<char>> {
    lowercased(raw_exact_entries(lines))
}

/// The lower-cased wildcard suffixes of `lines`, in file order.
pub open spec fn wildcard_entries(lines: Seq<Seq<char>>) -> Seq<Seq<char>> {
    lowercased(raw_wildcard_entries(lines))
}

/// Each of `es`, with ASCII capitals made small.
pub open spec fn ascii_lowercased(es: Seq<Seq<char>>) -> Seq<Seq<char>> {
    es.map_values(|e: Seq<char>| ascii_lower(e))
}

/// `d` ends with `'.'` followed by `w`.
pub open spec fn dot_suffix(d: Seq<char>, w: Seq<char>) -> bool {
    &&& d.len() > w.len()
    &&& d[d.len() - w.len() - 1] == '.'
    &&& d.subrange(d.len() - w.len(), d.len() as int) == w
}

/// The wildcard suffix `w` covers `d`: `d` is `w` or a name below it.
pub open spec fn covered_by(d: Seq<char>, w: Seq<char>) -> bool {
    d == w || dot_suffix(d, w)
}

/// The (already normalized) name `d` is on the list whose exact entries
/// and wildcard suffixes are `v`.
pub open spec fn listed(v: (Set<Seq<char>>, Seq<Seq<char>>), d: Seq<char>) -> bool {
    ||| v.0.contains(d)
    ||| exists|k: int| 0 <= k < v.1.len() && covered_by(d, #[trigger] v.1[k])
}

/// Known DGA domains, matched exactly or by wildcard suffix.
pub struct Blacklist {
    exact: StringHashSet,
    wildcards: Vec<String>,
}

impl View for Blacklist {
    /// The set of exact entries, and the wildcard suffixes in file order;
    /// all lower-cased.
    type V = (Set<Seq<char>>, Seq<Seq<char>>);

    closed spec fn view(&self) -> (Set<Seq<char>>, Seq<Seq<char>>) {
        (self.exact@, self.wildcards.deep_view())
    }
}

/// Whether `w` covers `d`.
fn covers(d: &Vec<char>, w: &Vec<char>) -> (r: bool)
    ensures
        r == covered_by(d@, w@),
{
    let dl = d.len();
    let wl = w.len();
    if dl == wl {
        let mut i: usize = 0;
        while i < dl
            invariant
                i <= dl,
                dl == d.len(),
                wl == w.len(),
                dl == wl,
                forall|k: int| 0 <= k < i ==> d@[k] == w@[k],
            decreases dl - i,
        {
            if d[i] != w[i] {
                return false;
            }
            i = i + 1;
        }
        assert(d@ == w@);
        return true;
    }
    if dl <= wl || d[dl - wl - 1] != '.' {
        return false;
    }
    let off = dl - wl;
    let mut i: usize = 0;
    while i < wl
        invariant
            i <= wl,
            dl == d.len(),
            wl == w.len(),
            off == dl - wl,
            forall|k: int| 0 <= k < i ==> d@[off + k] == w@[k],
        decreases wl - i,
    {
        if d[off + i] != w[i] {
            assert(d@.subrange(off as int, dl as int)[i as int] != w@[i as int]);
            return false;
        }
        i = i + 1;
    }
    assert(d@.subrange(off as int, dl as int) == w@);
    true
}

/// The entries of a list file as written: the exact entries and the
/// wildcard suffixes, each trimmed, in file order; blank lines and `#`
/// comments skipped.
pub fn list_entries(text: &str) -> (r: (Vec<String>, Vec<String>))
    ensures
        r.0.deep_view() == raw_exact_entries(lines_of(text@)),
        r.1.deep_view() == raw_wildcard_entries(lines_of(text@)),
{
    let cs = chars_of(text);
    let lines = line_chars(&cs);
    let ghost ls = lines.deep_view();
    let mut exact: Vec<String> = Vec::new();
    let mut wildcards: Vec<String> = Vec::new();
    let mut k: usize = 0;
    while k < lines.len()
        invariant
            k <= lines.len(),
            ls == lines.deep_view(),
            ls == lines_of(text@),
            exact.deep_view() == raw_exact_entries(ls.take(k as int)),
            wildcards.deep_view() == raw_wildcard_entries(ls.take(k as int)),
        decreases lines.len() - k,
    {
        let line = &lines[k];
        let ghost lv = ls[k as int];
        assert(line@ =~= lv);
        assert(ls.take(k + 1).drop_last() == ls.take(k as int));
        assert(ls.take(k + 1).last() == lv);
        let (a, b) = trim_bounds(line);
        let ghost e = trimmed(lv);
        if a == b || line[a] == '#' {
        } else if b - a >= 2 && line[a] == '*' && line[a + 1] == '.' {
            let suffix = string_of(line, a + 2, b);
            assert(suffix@ == e.skip(2));
            let ghost before = wildcards.deep_view();
            wildcards.push(suffix);
            assert(wildcards.deep_view() =~= before.push(e.skip(2)));
        } else {
            let entry = string_of(line, a, b);
            let ghost before = exact.deep_view();
            exact.push(entry);
            assert(exact.deep_view() =~= before.push(e));
        }
        k = k + 1;
    }
    assert(ls.take(lines.len() as int) == ls);
    (exact, wildcards)
}

/// Each of `v`, lower-cased.
fn lowercase_all(v: &Vec<String>) -> (r: Vec<String>)
    ensures
        r.deep_view() == lowercased(v.deep_view()),
        forall|k: int|
            0 <= k < v.len() && is_ascii_text(v.deep_view()[k]) ==> #[trigger] r.deep_view()[k]
                == ascii_lower(v.deep_view()[k]),
{
    let mut r: Vec<String> = Vec::new();
    let mut i: usize = 0;
    while i < v.len()
        invariant
            i <= v.len(),
            r.deep_view() == lowercased(v.deep_view().take(i as int)),
            forall|k: int|
                0 <= k < i && is_ascii_text(v.deep_view()[k]) ==> #[trigger] r.deep_view()[k]
                    == ascii_lower(v.deep_view()[k]),
        decreases v.len() - i,
    {
        let low = to_lowercase(v[i].as_str());
        let ghost before = r.deep_view();
        r.push(low);
        assert(r.deep_view() =~= before.push(low@));
        assert(lowercased(v.deep_view().take(i + 1)) =~= lowercased(v.deep_view().take(i as int)).push(
            lowercase(v.deep_view()[i as int]),
        ));
        i = i + 1;
    }
    assert(v.deep_view().take(v.len() as int) == v.deep_view());
    r
}

impl Blacklist {
    /// The number of distinct exact entries.
    pub fn exact_count(&self) -> (n: usize)
        ensures
            n == self@.0.len(),
    {
        self.exact.len()
    }

    /// The blacklist held by the text of a list file: one entry per line,
    /// blank lines and `#` comments skipped, `*.w` read as a wildcard for
    /// `w`, every entry trimmed and lower-cased.
    pub fn parse(text: &str) -> (b: Blacklist)
        ensures
            b@.0 == exact_entries(lines_of(text@)).to_set(),
            b@.1 == wildcard_entries(lines_of(text@)),
            is_ascii_text(text@) ==> b@.0 == ascii_lowercased(
                raw_exact_entries(lines_of(text@)),
            ).to_set(),
            is_ascii_text(text@) ==> b@.1 == ascii_lowercased(
                raw_wildcard_entries(lines_of(text@)),
            ),
    {
        let (exact, wildcards) = list_entries(text);
        let low_exact = lowercase_all(&exact);
        let low_wild = lowercase_all(&wildcards);
        proof {
            if is_ascii_text(text@) {
                lemma_raw_entries_ascii(text@);
                assert(low_exact.deep_view() =~= ascii_lowercased(exact.deep_view()));
                assert(low_wild.deep_view() =~= ascii_lowercased(wildcards.deep_view()));
            }
        }
        Blacklist { exact: string_set(&low_exact), wildcards: low_wild }
    }

    /// Whether `domain` is blacklisted: its trailing dots are taken off and
    /// it is lower-cased, then it is looked up with `matches`.
    pub fn contains(&self, domain: &str) -> (r: bool)
        ensures
            r == listed(self@, normalized(domain@)),
            is_ascii_text(domain@) ==> r == listed(self@, ascii_normalized(domain@)),
    {
        let d = normalize_domain(domain);
        self.matches(d.as_str())
    }

    /// Whether the name `d`, taken as it is, matches an exact entry, equals
    /// a wildcard suffix, or ends with `'.'` and a wildcard suffix.
    pub fn matches(&self, name: &str) -> (r: bool)
        ensures
            r == listed(self@, name@),
    {
        if self.exact.contains(name) {
            assert(listed(self@, name@));
            return true;
        }
        let d = name.to_owned();
        let dcs = chars_of(d.as_str());
        let mut j: usize = 0;
        while j < self.wildcards.len()
            invariant
                j <= self.wildcards.len(),
                dcs@ == d@,
                d@ == name@,
                forall|k: int| 0 <= k < j ==> !covered_by(d@, #[trigger] self@.1[k]),
            decreases self.wildcards.len() - j,
        {
            let wcs = chars_of(self.wildcards[j].as_str());
            if covers(&dcs, &wcs) {
                assert(covered_by(d@, self@.1[j as int]));
                assert(listed(self@, d@));
                return true;
            }
            j = j + 1;
        }
        false
    }
}

// ---------------------------------------------------------------------------
// Laws
// ---------------------------------------------------------------------------

/// The entry of an ASCII line is ASCII, trimmed, and not blank.
proof fn lemma_entry_shape(line: Seq<char>)
    ensures
        entry_of(line) matches Some((wild, e)) ==> {
            &&& is_ascii_text(line) ==> is_ascii_text(e)
            &&& !wild ==> {
                &&& e.len() > 0
                &&& e == trimmed(line)
                &&& !is_white_space(e[0])
                &&& !is_white_space(e.last())
                &&& e[0] != '#'
                &&& !(e.len() >= 2 && e[0] == '*' && e[1] == '.')
            }
        },
{
    law_trimmed_has_no_outer_whitespace(line);
    let t = trimmed(line);
    if is_ascii_text(line) {
        assert(is_ascii_text(t)) by {
            assert forall|w: int| 0 <= w < t.len() implies #[trigger] t[w] <= '\u{7f}' by {
                let a = crate::text::ws_start(line, 0);
                assert(t[w] == line[a + w]);
            }
        }
        if t.len() >= 2 {
            assert(is_ascii_text(t.skip(2))) by {
                assert forall|w: int| 0 <= w < t.skip(2).len() implies #[trigger] t.skip(2)[w]
                    <= '\u{7f}' by {
                    assert(t.skip(2)[w] == t[w + 2]);
                }
            }
        }
    }
}

/// Every exact entry as written comes from a line of the file.
proof fn lemma_raw_exact_origin(lines: Seq<Seq<char>>)
    ensures
        forall|k: int|
            #![trigger raw_exact_entries(lines)[k]]
            0 <= k < raw_exact_entries(lines).len() ==> exists|i: int|
                0 <= i < lines.len() && entry_of(#[trigger] lines[i]) == Some(
                    (false, raw_exact_entries(lines)[k]),
                ),
    decreases lines.len(),
{
    if lines.len() > 0 {
        let prev = raw_exact_entries(lines.drop_last());
        lemma_raw_exact_origin(lines.drop_last());
        assert forall|k: int|
            #![trigger raw_exact_entries(lines)[k]]
            0 <= k < raw_exact_entries(lines).len() implies exists|i: int|
            0 <= i < lines.len() && entry_of(#[trigger] lines[i]) == Some(
                (false, raw_exact_entries(lines)[k]),
            ) by {
            let last = lines.len() - 1;
            if k < prev.len() {
                match entry_of(lines.last()) {
                    Some((false, x)) => {
                        assert(raw_exact_entries(lines) == prev.push(x));
                    },
                    _ => {
                        assert(raw_exact_entries(lines) == prev);
                    },
                }
                let i = choose|i: int|
                    0 <= i < lines.drop_last().len() && entry_of(#[trigger] lines.drop_last()[i])
                        == Some((false, prev[k]));
                assert(lines[i] == lines.drop_last()[i]);
            } else {
                match entry_of(lines.last()) {
                    Some((false, x)) => {
                        assert(raw_exact_entries(lines) == prev.push(x));
                        assert(entry_of(lines[last]) == Some((false, raw_exact_entries(lines)[k])));
                    },
                    _ => {
                        assert(raw_exact_entries(lines) == prev);
                    },
                }
            }
        }
    }
}

/// Every wildcard suffix as written comes from a line of the file.
proof fn lemma_raw_wildcard_origin(lines: Seq<Seq<char>>)
    ensures
        forall|k: int|
            #![trigger raw_wildcard_entries(lines)[k]]
            0 <= k < raw_wildcard_entries(lines).len() ==> exists|i: int|
                0 <= i < lines.len() && entry_of(#[trigger] lines[i]) == Some(
                    (true, raw_wildcard_entries(lines)[k]),
                ),
    decreases lines.len(),
{
    if lines.len() > 0 {
        let prev = raw_wildcard_entries(lines.drop_last());
        lemma_raw_wildcard_origin(lines.drop_last());
        assert forall|k: int|
            #![trigger raw_wildcard_entries(lines)[k]]
            0 <= k < raw_wildcard_entries(lines).len() implies exists|i: int|
            0 <= i < lines.len() && entry_of(#[trigger] lines[i]) == Some(
                (true, raw_wildcard_entries(lines)[k]),
            ) by {
            let last = lines.len() - 1;
            if k < prev.len() {
                match entry_of(lines.last()) {
                    Some((true, x)) => {
                        assert(raw_wildcard_entries(lines) == prev.push(x));
                    },
                    _ => {
                        assert(raw_wildcard_entries(lines) == prev);
                    },
                }
                let i = choose|i: int|
                    0 <= i < lines.drop_last().len() && entry_of(#[trigger] lines.drop_last()[i])
                        == Some((true, prev[k]));
                assert(lines[i] == lines.drop_last()[i]);
            } else {
                match entry_of(lines.last()) {
                    Some((true, x)) => {
                        assert(raw_wildcard_entries(lines) == prev.push(x));
                        assert(entry_of(lines[last]) == Some((true, raw_wildcard_entries(lines)[k])));
                    },
                    _ => {
                        assert(raw_wildcard_entries(lines) == prev);
                    },
                }
            }
        }
    }
}

/// The entries of an ASCII file are ASCII.
proof fn lemma_raw_entries_ascii(text: Seq<char>)
    requires
        is_ascii_text(text),
    ensures
        forall|k: int|
            0 <= k < raw_exact_entries(lines_of(text)).len() ==> is_ascii_text(
                #[trigger] raw_exact_entries(lines_of(text))[k],
            ),
        forall|k: int|
            0 <= k < raw_wildcard_entries(lines_of(text)).len() ==> is_ascii_text(
                #[trigger] raw_wildcard_entries(lines_of(text))[k],
            ),
{
    let ls = lines_of(text);
    lemma_lines_ascii(text, 0);
    lemma_raw_exact_origin(ls);
    lemma_raw_wildcard_origin(ls);
    assert forall|k: int| 0 <= k < raw_exact_entries(ls).len() implies is_ascii_text(
        #[trigger] raw_exact_entries(ls)[k],
    ) by {
        let i = choose|i: int|
            0 <= i < ls.len() && entry_of(#[trigger] ls[i]) == Some((false, raw_exact_entries(ls)[k]));
        lemma_entry_shape(ls[i]);
    }
    assert forall|k: int| 0 <= k < raw_wildcard_entries(ls).len() implies is_ascii_text(
        #[trigger] raw_wildcard_entries(ls)[k],
    ) by {
        let i = choose|i: int|
            0 <= i < ls.len() && entry_of(#[trigger] ls[i]) == Some((true, raw_wildcard_entries(ls)[k]));
        lemma_entry_shape(ls[i]);
    }
}

proof fn lemma_exact_entry_kept(lines: Seq<Seq<char>>, i: int, e: Seq<char>)
    requires
        0 <= i < lines.len(),
        entry_of(lines[i]) == Some((false, e)),
    ensures
        raw_exact_entries(lines).contains(e),
    decreases lines.len(),
{
    let prev = raw_exact_entries(lines.drop_last());
    if i == lines.len() - 1 {
        assert(raw_exact_entries(lines) == prev.push(e));
        assert(raw_exact_entries(lines)[prev.len() as int] == e);
    } else {
        assert(lines.drop_last()[i] == lines[i]);
        lemma_exact_entry_kept(lines.drop_last(), i, e);
        let k = choose|k: int| 0 <= k < prev.len() && prev[k] == e;
        match entry_of(lines.last()) {
            Some((false, x)) => {
                assert(raw_exact_entries(lines) == prev.push(x));
            },
            _ => {
                assert(raw_exact_entries(lines) == prev);
            },
        }
        assert(raw_exact_entries(lines)[k] == e);
    }
}

proof fn lemma_wildcard_entry_kept(lines: Seq<Seq<char>>, i: int, w: Seq<char>)
    requires
        0 <= i < lines.len(),
        entry_of(lines[i]) == Some((true, w)),
    ensures
        raw_wildcard_entries(lines).contains(w),
    decreases lines.len(),
{
    let prev = raw_wildcard_entries(lines.drop_last());
    if i == lines.len() - 1 {
        assert(raw_wildcard_entries(lines) == prev.push(w));
        assert(raw_wildcard_entries(lines)[prev.len() as int] == w);
    } else {
        assert(lines.drop_last()[i] == lines[i]);
        lemma_wildcard_entry_kept(lines.drop_last(), i, w);
        let k = choose|k: int| 0 <= k < prev.len() && prev[k] == w;
        match entry_of(lines.last()) {
            Some((true, x)) => {
                assert(raw_wildcard_entries(lines) == prev.push(x));
            },
            _ => {
                assert(raw_wildcard_entries(lines) == prev);
            },
        }
        assert(raw_wildcard_entries(lines)[k] == w);
    }
}

/// Every exact entry of a list file blocks the domains that normalize to it.
pub proof fn law_exact_entry_blocks(text: Seq<char>, i: int, e: Seq<char>, q: Seq<char>)
    requires
        0 <= i < lines_of(text).len(),
        entry_of(lines_of(text)[i]) == Some((false, e)),
        normalized(q) == lowercase(e),
    ensures
        listed(
            (exact_entries(lines_of(text)).to_set(), wildcard_entries(lines_of(text))),
            normalized(q),
        ),
{
    let ls = lines_of(text);
    lemma_exact_entry_kept(ls, i, e);
    let k = choose|k: int| 0 <= k < raw_exact_entries(ls).len() && raw_exact_entries(ls)[k] == e;
    assert(exact_entries(ls)[k] == lowercase(e));
    assert(exact_entries(ls).contains(lowercase(e)));
}

/// Every wildcard entry `*.w` of a list file blocks the domains that
/// normalize to `w` or to a name below it.
pub proof fn law_wildcard_entry_blocks(text: Seq<char>, i: int, w: Seq<char>, q: Seq<char>)
    requires
        0 <= i < lines_of(text).len(),
        entry_of(lines_of(text)[i]) == Some((true, w)),
        covered_by(normalized(q), lowercase(w)),
    ensures
        listed(
            (exact_entries(lines_of(text)).to_set(), wildcard_entries(lines_of(text))),
            normalized(q),
        ),
{
    let ls = lines_of(text);
    lemma_wildcard_entry_kept(ls, i, w);
    let k = choose|k: int|
        0 <= k < raw_wildcard_entries(ls).len() && raw_wildcard_entries(ls)[k] == w;
    assert(wildcard_entries(ls)[k] == lowercase(w));
    let v = (exact_entries(ls).to_set(), wildcard_entries(ls));
    assert(v.1[k] == wildcard_entries(ls)[k]);
    assert(covered_by(normalized(q), v.1[k]));
    assert(listed(v, normalized(q)));
}

/// A wildcard suffix `w` on the list blocks `w` itself and every name that
/// ends with `'.'` and `w`.
pub proof fn law_wildcard_covers_subdomains(
    v: (Set<Seq<char>>, Seq<Seq<char>>),
    k: int,
    sub: Seq<char>,
)
    requires
        0 <= k < v.1.len(),
    ensures
        listed(v, v.1[k]),
        listed(v, sub + seq!['.'] + v.1[k]),
{
    let w = v.1[k];
    let d = sub + seq!['.'] + w;
    assert(covered_by(w, v.1[k]));
    assert(d.subrange(d.len() - w.len(), d.len() as int) =~= w);
    assert(d[d.len() - w.len() - 1] == '.');
    assert(covered_by(d, v.1[k]));
}

/// Trailing dots do not change whether a domain is blacklisted: the
/// fully qualified `example.com.` is treated as `example.com`.
pub proof fn law_trailing_dot_ignored(v: (Set<Seq<char>>, Seq<Seq<char>>), d: Seq<char>)
    ensures
        listed(v, normalized(d.push('.'))) == listed(v, normalized(d)),
{
    assert(d.push('.').drop_last() =~= d);
    assert(strip_trailing_dots(d.push('.')) == strip_trailing_dots(d));
}


/// ASCII letter case does not change whether a name is blacklisted: names
/// that agree once ASCII lower-cased are blacklisted alike (and `contains`
/// keys ASCII names by `ascii_normalized`).
pub proof fn law_contains_ignores_ascii_case(
    v: (Set<Seq<char>>, Seq<Seq<char>>),
    x: Seq<char>,
    y: Seq<char>,
)
    requires
        ascii_lower(x) == ascii_lower(y),
    ensures
        listed(v, ascii_normalized(x)) == listed(v, ascii_normalized(y)),
{
    law_ascii_case_ignored(x, y);
}

/// The blacklist of an ASCII file holds only lower-case exact entries that
/// are not blank, neither begin nor end with whitespace, are no comment and
/// no wildcard; its wildcard suffixes are lower-case.
pub proof fn law_ascii_entry_shape(text: Seq<char>)
    requires
        is_ascii_text(text),
    ensures
        forall|e: Seq<char>|
            #[trigger] ascii_lowercased(raw_exact_entries(lines_of(text))).to_set().contains(e)
                ==> {
                &&& e.len() > 0
                &&& !is_white_space(e[0])
                &&& !is_white_space(e.last())
                &&& ascii_lower(e) == e
                &&& e[0] != '#'
                &&& !(e.len() >= 2 && e[0] == '*' && e[1] == '.')
            },
        forall|k: int|
            0 <= k < raw_wildcard_entries(lines_of(text)).len() ==> ascii_lower(
                #[trigger] ascii_lowercased(raw_wildcard_entries(lines_of(text)))[k],
            ) == ascii_lowercased(raw_wildcard_entries(lines_of(text)))[k],
{
    let ls = lines_of(text);
    let raw = raw_exact_entries(ls);
    lemma_lines_ascii(text, 0);
    lemma_raw_exact_origin(ls);
    assert forall|e: Seq<char>| #[trigger] ascii_lowercased(raw).to_set().contains(e) implies {
        &&& e.len() > 0
        &&& !is_white_space(e[0])
        &&& !is_white_space(e.last())
        &&& ascii_lower(e) == e
        &&& e[0] != '#'
        &&& !(e.len() >= 2 && e[0] == '*' && e[1] == '.')
    } by {
        let lw = ascii_lowercased(raw);
        let k = choose|k: int| 0 <= k < lw.len() && lw[k] == e;
        let r = raw[k];
        assert(e == ascii_lower(r));
        let i = choose|i: int| 0 <= i < ls.len() && entry_of(#[trigger] ls[i]) == Some((false, r));
        lemma_entry_shape(ls[i]);
        lemma_ascii_lower(r);
        lemma_ascii_lower_char(r[0]);
        lemma_ascii_lower_char(r.last());
        assert(e.last() == ascii_lower_char(r.last()));
        if r.len() >= 2 {
            lemma_ascii_lower_char(r[1]);
        }
    }
    assert forall|k: int| 0 <= k < raw_wildcard_entries(ls).len() implies ascii_lower(
        #[trigger] ascii_lowercased(raw_wildcard_entries(ls))[k],
    ) == ascii_lowercased(raw_wildcard_entries(ls))[k] by {
        lemma_ascii_lower(raw_wildcard_entries(ls)[k]);
    }
}

/// In the blacklist of an ASCII file, a wildcard entry `*.w` blocks `w`
/// and every name below it, keyed as `contains` keys ASCII names; `w` must
/// not end with `'.'`, since keys lose their trailing dots.
pub proof fn law_wildcard_blocks_through_contains(text: Seq<char>, k: int, s: Seq<char>)
    requires
        is_ascii_text(text),
        0 <= k < raw_wildcard_entries(lines_of(text)).len(),
        ascii_lowercased(raw_wildcard_entries(lines_of(text)))[k].len() > 0,
        ascii_lowercased(raw_wildcard_entries(lines_of(text)))[k].last() != '.',
    ensures
        ({
            let v = (
                ascii_lowercased(raw_exact_entries(lines_of(text))).to_set(),
                ascii_lowercased(raw_wildcard_entries(lines_of(text))),
            );
            let w = ascii_lowercased(raw_wildcard_entries(lines_of(text)))[k];
            &&& listed(v, ascii_normalized(w))
            &&& listed(v, ascii_normalized(s + seq!['.'] + w))
        }),
{
    let ls = lines_of(text);
    let v = (
        ascii_lowercased(raw_exact_entries(ls)).to_set(),
        ascii_lowercased(raw_wildcard_entries(ls)),
    );
    let w = v.1[k];
    lemma_ascii_lower(raw_wildcard_entries(ls)[k]);
    assert(ascii_lower(w) == w);
    assert(strip_trailing_dots(w) == w);
    assert(covered_by(ascii_normalized(w), v.1[k]));
    let d = s + seq!['.'] + w;
    assert(d.last() == w.last());
    assert(strip_trailing_dots(d) == d);
    lemma_ascii_lower(d);
    lemma_ascii_lower_char('.');
    let n = ascii_lower(d);
    assert(n.subrange(n.len() - w.len(), n.len() as int) =~= ascii_lower(w)) by {
        assert forall|j: int| 0 <= j < w.len() implies n[n.len() - w.len() + j] == ascii_lower(w)[j] by {
            assert(d[d.len() - w.len() + j] == w[j]);
            lemma_ascii_lower(w);
        }
    }
    assert(n[n.len() - w.len() - 1] == '.') by {
        assert(d[d.len() - w.len() - 1] == '.');
    }
    assert(covered_by(ascii_normalized(d), v.1[k]));
}

/// A wildcard suffix `w` covers a name `d` exactly when `d` is `w`, or `d`
/// is longer and ends with a `'.'` followed by the characters of `w`: a
/// suffix only counts at a label boundary.
pub proof fn law_wildcard_cover_is_label_boundary(d: Seq<char>, w: Seq<char>)
    ensures
        covered_by(d, w) <==> (d == w || (d.len() > w.len() && d[d.len() - w.len() - 1] == '.'
            && forall|j: int| 0 <= j < w.len() ==> #[trigger] d[d.len() - w.len() + j] == w[j])),
{
    if d.len() > w.len() {
        let tail = d.subrange(d.len() - w.len(), d.len() as int);
        if forall|j: int| 0 <= j < w.len() ==> #[trigger] d[d.len() - w.len() + j] == w[j] {
            assert forall|j: int| 0 <= j < w.len() implies tail[j] == w[j] by {
                assert(tail[j] == d[d.len() - w.len() + j]);
            }
            assert(tail =~= w);
        }
        if tail == w {
            assert forall|j: int| 0 <= j < w.len() implies #[trigger] d[d.len() - w.len() + j]
                == w[j] by {
                assert(tail[j] == w[j]);
            }
        }
    }
}

/// A name is on the list exactly when it is an exact entry, equals a
/// wildcard suffix, or ends with `'.'` and a wildcard suffix.
pub proof fn law_listed_means(v: (Set<Seq<char>>, Seq<Seq<char>>), d: Seq<char>)
    ensures
        listed(v, d) <==> (v.0.contains(d) || exists|k: int|
            0 <= k < v.1.len() && (d == #[trigger] v.1[k] || (d.len() > v.1[k].len() && d[d.len()
                - v.1[k].len() - 1] == '.' && d.subrange(d.len() - v.1[k].len(), d.len() as int)
                == v.1[k]))),
{
}

/// The exact entries of a list file are the lower-cased trimmed text of
/// exactly those lines that are not blank, not `#` comments and not `*.`
/// wildcards, whatever else they begin with.
pub proof fn law_exact_entries_are_plain_lines(text: Seq<char>)
    ensures
        forall|e: Seq<char>|
            exact_entries(lines_of(text)).to_set().contains(e) <==> exists|i: int|
                0 <= i < lines_of(text).len() && trimmed(#[trigger] lines_of(text)[i]).len() > 0
                    && trimmed(lines_of(text)[i])[0] != '#' && !(trimmed(lines_of(text)[i]).len()
                    >= 2 && trimmed(lines_of(text)[i])[0] == '*' && trimmed(lines_of(text)[i])[1]
                    == '.') && e == lowercase(trimmed(lines_of(text)[i])),
{
    let ls = lines_of(text);
    lemma_raw_exact_origin(ls);
    assert forall|e: Seq<char>| exact_entries(ls).to_set().contains(e) <==> exists|i: int|
        0 <= i < ls.len() && trimmed(#[trigger] ls[i]).len() > 0 && trimmed(ls[i])[0] != '#'
            && !(trimmed(ls[i]).len() >= 2 && trimmed(ls[i])[0] == '*' && trimmed(ls[i])[1] == '.')
            && e == lowercase(trimmed(ls[i])) by {
        if exact_entries(ls).to_set().contains(e) {
            let k = choose|k: int| 0 <= k < exact_entries(ls).len() && exact_entries(ls)[k] == e;
            let r = raw_exact_entries(ls)[k];
            let i = choose|i: int| 0 <= i < ls.len() && entry_of(#[trigger] ls[i]) == Some((false, r));
            assert(e == lowercase(r));
            assert(r == trimmed(ls[i]));
        }
        if exists|i: int|
            0 <= i < ls.len() && trimmed(#[trigger] ls[i]).len() > 0 && trimmed(ls[i])[0] != '#'
                && !(trimmed(ls[i]).len() >= 2 && trimmed(ls[i])[0] == '*' && trimmed(ls[i])[1]
                == '.') && e == lowercase(trimmed(ls[i])) {
            let i = choose|i: int|
                0 <= i < ls.len() && trimmed(#[trigger] ls[i]).len() > 0 && trimmed(ls[i])[0] != '#'
                    && !(trimmed(ls[i]).len() >= 2 && trimmed(ls[i])[0] == '*' && trimmed(ls[i])[1]
                    == '.') && e == lowercase(trimmed(ls[i]));
            assert(entry_of(ls[i]) == Some((false, trimmed(ls[i]))));
            lemma_exact_entry_kept(ls, i, trimmed(ls[i]));
            let k = choose|k: int|
                0 <= k < raw_exact_entries(ls).len() && raw_exact_entries(ls)[k] == trimmed(ls[i]);
            assert(exact_entries(ls)[k] == e);
        }
    }
}

/// Every wildcard suffix of a list file is the lower-cased text after `*.`
/// of a trimmed line that begins with `*.`, and every such line gives one.
pub proof fn law_wildcard_entries_are_star_dot_lines(text: Seq<char>)
    ensures
        forall|k: int|
            #![trigger wildcard_entries(lines_of(text))[k]]
            0 <= k < wildcard_entries(lines_of(text)).len() ==> exists|i: int|
                0 <= i < lines_of(text).len() && trimmed(#[trigger] lines_of(text)[i]).len() >= 2
                    && trimmed(lines_of(text)[i])[0] == '*' && trimmed(lines_of(text)[i])[1] == '.'
                    && wildcard_entries(lines_of(text))[k] == lowercase(
                    trimmed(lines_of(text)[i]).skip(2),
                ),
        forall|i: int|
            0 <= i < lines_of(text).len() && trimmed(#[trigger] lines_of(text)[i]).len() >= 2
                && trimmed(lines_of(text)[i])[0] == '*' && trimmed(lines_of(text)[i])[1] == '.'
                ==> wildcard_entries(lines_of(text)).contains(
                lowercase(trimmed(lines_of(text)[i]).skip(2)),
            ),
{
    let ls = lines_of(text);
    lemma_raw_wildcard_origin(ls);
    assert forall|k: int|
        #![trigger wildcard_entries(ls)[k]]
        0 <= k < wildcard_entries(ls).len() implies exists|i: int|
            0 <= i < ls.len() && trimmed(#[trigger] ls[i]).len() >= 2 && trimmed(ls[i])[0] == '*'
                && trimmed(ls[i])[1] == '.' && wildcard_entries(ls)[k] == lowercase(
                trimmed(ls[i]).skip(2),
            ) by {
        let r = raw_wildcard_entries(ls)[k];
        let i = choose|i: int| 0 <= i < ls.len() && entry_of(#[trigger] ls[i]) == Some((true, r));
        assert(wildcard_entries(ls)[k] == lowercase(r));
    }
    assert forall|i: int|
        0 <= i < ls.len() && trimmed(#[trigger] ls[i]).len() >= 2 && trimmed(ls[i])[0] == '*'
            && trimmed(ls[i])[1] == '.' implies wildcard_entries(ls).contains(
        lowercase(trimmed(ls[i]).skip(2)),
    ) by {
        let w = trimmed(ls[i]).skip(2);
        assert(entry_of(ls[i]) == Some((true, w)));
        lemma_wildcard_entry_kept(ls, i, w);
        let k = choose|k: int|
            0 <= k < raw_wildcard_entries(ls).len() && raw_wildcard_entries(ls)[k] == w;
        assert(wildcard_entries(ls)[k] == lowercase(w));
    }
}

} // verus!
