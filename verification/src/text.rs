//! Character-level text handling: whitespace trimming, line splitting,
//! stripping trailing dots and lower-casing.
use vstd::prelude::*;
use vstd::hash_set::StringHashSet;

verus! {

// ---------------------------------------------------------------------------
// Whitespace
// ---------------------------------------------------------------------------

/// The Unicode `White_Space` property, the set of characters that
/// `char::is_whitespace` (and therefore `str::trim`) treats as whitespace.
pub open spec fn is_white_space(c: char) -> bool {
    ||| ('\u{9}' <= c && c <= '\u{d}')
    ||| c == ' '
    ||| c == '\u{85}'
    ||| c == '\u{a0}'
    ||| c == '\u{1680}'
    ||| ('\u{2000}' <= c && c <= '\u{200a}')
    ||| c == '\u{2028}'
    ||| c == '\u{2029}'
    ||| c == '\u{202f}'
    ||| c == '\u{205f}'
    ||| c == '\u{3000}'
}

/// Whether `c` is a whitespace character.
pub fn is_whitespace(c: char) -> (b: bool)
    ensures
        b == is_white_space(c),
{
    ('\u{9}' <= c && c <= '\u{d}') || c == ' ' || c == '\u{85}' || c == '\u{a0}' || c
        == '\u{1680}' || ('\u{2000}' <= c && c <= '\u{200a}') || c == '\u{2028}' || c
        == '\u{2029}' || c == '\u{202f}' || c == '\u{205f}' || c == '\u{3000}'
}

/// The first position at or after `i` that does not hold whitespace.
pub open spec fn ws_start(s: Seq<char>, i: int) -> int
    decreases s.len() - i,
{
    if 0 <= i < s.len() && is_white_space(s[i]) {
        ws_start(s, i + 1)
    } else {
        i
    }
}

/// The end, no lower than `lo`, of `s.subrange(lo, j)` with its trailing
/// whitespace taken off.
pub open spec fn ws_end(s: Seq<char>, lo: int, j: int) -> int
    decreases j - lo,
{
    if lo < j && j <= s.len() && is_white_space(s[j - 1]) {
        ws_end(s, lo, j - 1)
    } else {
        j
    }
}

/// `s` without its leading and trailing whitespace.
pub open spec fn trimmed(s: Seq<char>) -> Seq<char> {
    let a = ws_start(s, 0);
    s.subrange(a, ws_end(s, a, s.len() as int))
}

pub proof fn lemma_ws_start_bounds(s: Seq<char>, i: int)
    requires
        0 <= i <= s.len(),
    ensures
        i <= ws_start(s, i) <= s.len(),
        forall|k: int| i <= k < ws_start(s, i) ==> is_white_space(#[trigger] s[k]),
        ws_start(s, i) < s.len() ==> !is_white_space(s[ws_start(s, i)]),
    decreases s.len() - i,
{
    if i < s.len() && is_white_space(s[i]) {
        lemma_ws_start_bounds(s, i + 1);
    }
}

pub proof fn lemma_ws_end_bounds(s: Seq<char>, lo: int, j: int)
    requires
        0 <= lo <= j <= s.len(),
    ensures
        lo <= ws_end(s, lo, j) <= j,
        forall|k: int| ws_end(s, lo, j) <= k < j ==> is_white_space(#[trigger] s[k]),
        lo < ws_end(s, lo, j) ==> !is_white_space(s[ws_end(s, lo, j) - 1]),
    decreases j - lo,
{
    if lo < j && is_white_space(s[j - 1]) {
        lemma_ws_end_bounds(s, lo, j - 1);
    }
}

/// Trimming keeps a contiguous piece of the text that neither begins nor
/// ends with whitespace, and drops only whitespace around it.
pub proof fn law_trimmed_has_no_outer_whitespace(s: Seq<char>)
    ensures
        ({
            let a = ws_start(s, 0);
            let b = ws_end(s, a, s.len() as int);
            &&& 0 <= a <= b <= s.len()
            &&& trimmed(s) == s.subrange(a, b)
            &&& forall|k: int| 0 <= k < a ==> is_white_space(#[trigger] s[k])
            &&& forall|k: int| b <= k < s.len() ==> is_white_space(#[trigger] s[k])
        }),
        trimmed(s).len() > 0 ==> !is_white_space(trimmed(s)[0]) && !is_white_space(
            trimmed(s).last(),
        ),
{
    lemma_ws_start_bounds(s, 0);
    let a = ws_start(s, 0);
    lemma_ws_end_bounds(s, a, s.len() as int);
}

/// The bounds `(a, b)` such that `cs@.subrange(a, b)` is `cs@` trimmed.
pub fn trim_bounds(cs: &Vec<char>) -> (r: (usize, usize))
    ensures
        r.0 <= r.1 <= cs.len(),
        r.0 == ws_start(cs@, 0),
        r.1 == ws_end(cs@, r.0 as int, cs@.len() as int),
        cs@.subrange(r.0 as int, r.1 as int) == trimmed(cs@),
{
    let n = cs.len();
    let mut a: usize = 0;
    while a < n && is_whitespace(cs[a])
        invariant
            a <= n,
            n == cs@.len(),
            ws_start(cs@, a as int) == ws_start(cs@, 0),
        decreases n - a,
    {
        a = a + 1;
    }
    let mut b: usize = n;
    while b > a && is_whitespace(cs[b - 1])
        invariant
            a <= b <= n,
            n == cs@.len(),
            ws_end(cs@, a as int, b as int) == ws_end(cs@, a as int, n as int),
        decreases b,
    {
        b = b - 1;
    }
    (a, b)
}

// ---------------------------------------------------------------------------
// Building strings
// ---------------------------------------------------------------------------

/// Appends `c` to `s` with `String::push`, which std documents as appending
/// the given char to the end of the string.
#[verifier::external_body]
fn push_char(s: &mut String, c: char)
    ensures
        final(s)@ == old(s)@.push(c),
{
    s.push(c);
}

/// The characters of `s`, in order.
pub fn chars_of(s: &str) -> (cs: Vec<char>)
    ensures
        cs@ == s@,
{
    let mut cs: Vec<char> = Vec::new();
    for c in it: s.chars()
        invariant
            it.seq() == s@,
            cs@ == it.seq().take(it.index() as int),
    {
        cs.push(c);
    }
    cs
}

/// The string made of `cs[lo..hi]`.
pub fn string_of(cs: &Vec<char>, lo: usize, hi: usize) -> (s: String)
    requires
        lo <= hi <= cs.len(),
    ensures
        s@ == cs@.subrange(lo as int, hi as int),
{
    let mut s = String::new();
    let mut i = lo;
    while i < hi
        invariant
            lo <= i <= hi <= cs.len(),
            s@ == cs@.subrange(lo as int, i as int),
        decreases hi - i,
    {
        push_char(&mut s, cs[i]);
        assert(cs@.subrange(lo as int, i + 1) == cs@.subrange(lo as int, i as int).push(cs@[i as int]));
        i = i + 1;
    }
    s
}

/// The vector holding `cs[lo..hi]`.
pub fn copy_range(cs: &Vec<char>, lo: usize, hi: usize) -> (r: Vec<char>)
    requires
        lo <= hi <= cs.len(),
    ensures
        r@ == cs@.subrange(lo as int, hi as int),
{
    let mut r: Vec<char> = Vec::new();
    let mut i = lo;
    while i < hi
        invariant
            lo <= i <= hi <= cs.len(),
            r@ == cs@.subrange(lo as int, i as int),
        decreases hi - i,
    {
        r.push(cs[i]);
        assert(cs@.subrange(lo as int, i + 1) == cs@.subrange(lo as int, i as int).push(cs@[i as int]));
        i = i + 1;
    }
    r
}

/// `s` without its leading and trailing whitespace.
pub fn trim(s: &str) -> (r: &str)
    ensures
        r@ == trimmed(s@),
{
    let cs = chars_of(s);
    let (a, b) = trim_bounds(&cs);
    s.substring_char(a, b)
}

// ---------------------------------------------------------------------------
// Lines
// ---------------------------------------------------------------------------

/// The position of the first `'\n'` at or after `i`, or the length of `s`.
pub open spec fn next_newline(s: Seq<char>, i: int) -> int
    decreases s.len() - i,
{
    if i < 0 || i >= s.len() {
        s.len() as int
    } else if s[i] == '\n' {
        i
    } else {
        next_newline(s, i + 1)
    }
}

pub proof fn lemma_next_newline_bounds(s: Seq<char>, i: int)
    requires
        0 <= i <= s.len(),
    ensures
        i <= next_newline(s, i) <= s.len(),
        next_newline(s, i) < s.len() ==> s[next_newline(s, i)] == '\n',
        forall|k: int| i <= k < next_newline(s, i) ==> #[trigger] s[k] != '\n',
    decreases s.len() - i,
{
    if i < s.len() && s[i] != '\n' {
        lemma_next_newline_bounds(s, i + 1);
    }
}

/// A line ended by `'\n'` loses one `'\r'` before that `'\n'`, if there is one.
pub open spec fn without_cr(l: Seq<char>) -> Seq<char> {
    if l.len() > 0 && l.last() == '\r' {
        l.drop_last()
    } else {
        l
    }
}

/// The line of `s` that starts at `i`, without its line ending.
pub open spec fn line_at(s: Seq<char>, i: int) -> Seq<char> {
    let e = next_newline(s, i);
    if e < s.len() {
        without_cr(s.subrange(i, e))
    } else {
        s.subrange(i, e)
    }
}

/// The lines of `s` from position `i` on: split at `'\n'`, each line ended by
/// `"\r\n"` loses its `'\r'`, and a final line ending adds no empty line.
pub open spec fn lines_from(s: Seq<char>, i: int) -> Seq<Seq<char>>
    decreases s.len() + 1 - i,
{
    if i < 0 || i >= s.len() {
        seq![]
    } else {
        proof {
            lemma_next_newline_bounds(s, i);
        }
        seq![line_at(s, i)] + lines_from(s, next_newline(s, i) + 1)
    }
}

/// The lines of `s`.
pub open spec fn lines_of(s: Seq<char>) -> Seq<Seq<char>> {
    lines_from(s, 0)
}

proof fn lemma_lines_from_no_newline(s: Seq<char>, i: int)
    requires
        0 <= i <= s.len(),
    ensures
        forall|k: int|
            0 <= k < lines_from(s, i).len() ==> !(#[trigger] lines_from(s, i)[k]).contains('\n'),
    decreases s.len() + 1 - i,
{
    if i < s.len() {
        lemma_next_newline_bounds(s, i);
        let e = next_newline(s, i);
        let l = line_at(s, i);
        assert(!l.contains('\n')) by {
            if l.contains('\n') {
                let w = choose|w: int| 0 <= w < l.len() && l[w] == '\n';
                assert(s.subrange(i, e)[w] == '\n');
                assert(s[i + w] == '\n');
            }
        }
        if e < s.len() {
            lemma_lines_from_no_newline(s, e + 1);
        } else {
            assert(lines_from(s, e + 1).len() == 0);
        }
        let rest = lines_from(s, e + 1);
        assert(lines_from(s, i) == seq![l] + rest);
        assert forall|k: int| 0 <= k < lines_from(s, i).len() implies !(
        #[trigger] lines_from(s, i)[k]).contains('\n') by {
            if k > 0 {
                assert(lines_from(s, i)[k] == rest[k - 1]);
            }
        }
    }
}

/// The lines of ASCII text are ASCII.
pub proof fn lemma_lines_ascii(s: Seq<char>, i: int)
    requires
        0 <= i <= s.len(),
        is_ascii_text(s),
    ensures
        forall|k: int|
            0 <= k < lines_from(s, i).len() ==> is_ascii_text(#[trigger] lines_from(s, i)[k]),
    decreases s.len() + 1 - i,
{
    if i < s.len() {
        lemma_next_newline_bounds(s, i);
        let e = next_newline(s, i);
        let l = line_at(s, i);
        assert(is_ascii_text(l)) by {
            assert forall|w: int| 0 <= w < l.len() implies #[trigger] l[w] <= '\u{7f}' by {
                assert(l[w] == s.subrange(i, e)[w]);
                assert(s[i + w] <= '\u{7f}');
            }
        }
        if e < s.len() {
            lemma_lines_ascii(s, e + 1);
        } else {
            assert(lines_from(s, e + 1).len() == 0);
        }
        let rest = lines_from(s, e + 1);
        assert(lines_from(s, i) == seq![l] + rest);
        assert forall|k: int| 0 <= k < lines_from(s, i).len() implies is_ascii_text(
            #[trigger] lines_from(s, i)[k],
        ) by {
            if k > 0 {
                assert(lines_from(s, i)[k] == rest[k - 1]);
            }
        }
    }
}

/// No line holds a `'\n'`: line endings are not part of the lines.
pub proof fn law_lines_hold_no_newline(s: Seq<char>)
    ensures
        forall|k: int| 0 <= k < lines_of(s).len() ==> !(#[trigger] lines_of(s)[k]).contains('\n'),
{
    lemma_lines_from_no_newline(s, 0);
}

/// The lines of the text `cs`, each as its own vector of characters.
pub fn line_chars(cs: &Vec<char>) -> (ls: Vec<Vec<char>>)
    ensures
        ls.deep_view() == lines_of(cs@),
{
    let n = cs.len();
    let mut out: Vec<Vec<char>> = Vec::new();
    let mut i: usize = 0;
    while i < n
        invariant
            i <= n,
            n == cs@.len(),
            out.deep_view() + lines_from(cs@, i as int) == lines_of(cs@),
        decreases n - i,
    {
        let mut e = i;
        while e < n && cs[e] != '\n'
            invariant
                i <= e <= n,
                n == cs@.len(),
                next_newline(cs@, e as int) == next_newline(cs@, i as int),
            decreases n - e,
        {
            e = e + 1;
        }
        proof {
            lemma_next_newline_bounds(cs@, i as int);
        }
        let mut end = e;
        if e < n && e > i && cs[e - 1] == '\r' {
            end = e - 1;
        }
        let line = copy_range(cs, i, end);
        assert(line@ == line_at(cs@, i as int));
        let ghost before = out.deep_view();
        assert(line.deep_view() =~= line@);
        out.push(line);
        assert(out.deep_view() =~= before.push(line@));
        assert(lines_from(cs@, i as int) == seq![line_at(cs@, i as int)] + lines_from(
            cs@,
            e + 1,
        ));
        if e < n {
            i = e + 1;
        } else {
            i = n;
        }
        assert(lines_from(cs@, i as int) == lines_from(cs@, e + 1));
    }
    out
}

/// The lines of `text`, as `str::lines` gives them.
pub fn split_lines(text: &str) -> (ls: Vec<String>)
    ensures
        ls.deep_view() == lines_of(text@),
{
    let cs = chars_of(text);
    let lines = line_chars(&cs);
    let mut out: Vec<String> = Vec::new();
    let mut k: usize = 0;
    while k < lines.len()
        invariant
            k <= lines.len(),
            lines.deep_view() == lines_of(cs@),
            out.deep_view() == lines.deep_view().take(k as int),
        decreases lines.len() - k,
    {
        let l = &lines[k];
        let s = string_of(l, 0, l.len());
        assert(l@.subrange(0, l.len() as int) =~= l.deep_view());
        assert(s@ == lines.deep_view()[k as int]);
        let ghost before = out.deep_view();
        out.push(s);
        assert(out.deep_view() =~= before.push(s@));
        assert(lines.deep_view().take(k + 1) == lines.deep_view().take(k as int).push(
            lines.deep_view()[k as int],
        ));
        k = k + 1;
    }
    assert(lines.deep_view().take(lines.len() as int) == lines.deep_view());
    out
}

// ---------------------------------------------------------------------------
// Trailing dots and case
// ---------------------------------------------------------------------------

/// `s` with every trailing `'.'` taken off.
pub open spec fn strip_trailing_dots(s: Seq<char>) -> Seq<char>
    decreases s.len(),
{
    if s.len() > 0 && s.last() == '.' {
        strip_trailing_dots(s.drop_last())
    } else {
        s
    }
}

/// Stripping trailing dots leaves a prefix that does not end with `'.'`, and
/// takes off nothing but dots.
pub proof fn law_strip_trailing_dots(s: Seq<char>)
    ensures
        strip_trailing_dots(s).len() <= s.len(),
        strip_trailing_dots(s) == s.subrange(0, strip_trailing_dots(s).len() as int),
        strip_trailing_dots(s).len() > 0 ==> strip_trailing_dots(s).last() != '.',
        forall|k: int| strip_trailing_dots(s).len() <= k < s.len() ==> #[trigger] s[k] == '.',
    decreases s.len(),
{
    if s.len() > 0 && s.last() == '.' {
        law_strip_trailing_dots(s.drop_last());
        let t = strip_trailing_dots(s.drop_last());
        assert(s.drop_last().subrange(0, t.len() as int) =~= s.subrange(0, t.len() as int));
        assert forall|k: int| t.len() <= k < s.len() implies #[trigger] s[k] == '.' by {
            if k < s.len() - 1 {
                assert(s.drop_last()[k] == s[k]);
            }
        }
    } else {
        assert(s.subrange(0, s.len() as int) =~= s);
    }
}

/// `s` with every trailing `'.'` taken off, as `trim_end_matches('.')` gives it.
pub fn trim_trailing_dots(s: &str) -> (r: &str)
    ensures
        r@ == strip_trailing_dots(s@),
{
    let cs = chars_of(s);
    let mut j = cs.len();
    assert(cs@.subrange(0, j as int) == cs@);
    while j > 0 && cs[j - 1] == '.'
        invariant
            j <= cs.len(),
            strip_trailing_dots(cs@.subrange(0, j as int)) == strip_trailing_dots(cs@),
        decreases j,
    {
        assert(cs@.subrange(0, j as int).drop_last() == cs@.subrange(0, j - 1));
        j = j - 1;
    }
    s.substring_char(0, j)
}

/// What `str::to_lowercase` returns for a string whose characters are `s`.
pub uninterp spec fn lowercase(s: Seq<char>) -> Seq<char>;

/// Every character of `s` is ASCII.
pub open spec fn is_ascii_text(s: Seq<char>) -> bool {
    forall|i: int| 0 <= i < s.len() ==> #[trigger] s[i] <= '\u{7f}'
}

/// `c` with an ASCII capital letter turned into the small one.
pub open spec fn ascii_lower_char(c: char) -> char {
    if 'A' <= c && c <= 'Z' {
        ((c as int) + 32) as char
    } else {
        c
    }
}

/// `s` with each ASCII capital letter turned into the small one.
pub open spec fn ascii_lower(s: Seq<char>) -> Seq<char> {
    s.map_values(|c: char| ascii_lower_char(c))
}

/// ASCII lower-casing keeps ASCII characters ASCII, is idempotent, and
/// changes no character that is not a capital letter: `'.'`, `'#'`, `'*'`
/// and whitespace stay what they are, and no other character becomes one.
pub proof fn lemma_ascii_lower_char(c: char)
    ensures
        c <= '\u{7f}' ==> ascii_lower_char(c) <= '\u{7f}',
        ascii_lower_char(ascii_lower_char(c)) == ascii_lower_char(c),
        (ascii_lower_char(c) == '.') == (c == '.'),
        (ascii_lower_char(c) == '#') == (c == '#'),
        (ascii_lower_char(c) == '*') == (c == '*'),
        is_white_space(ascii_lower_char(c)) == is_white_space(c),
{
    if 'A' <= c && c <= 'Z' {
        let n = c as int;
        assert(65 <= n <= 90);
        assert((n + 32) as char as int == n + 32);
    }
}

/// ASCII lower-casing a string keeps its length, keeps ASCII text ASCII,
/// and is idempotent.
pub proof fn lemma_ascii_lower(s: Seq<char>)
    ensures
        ascii_lower(s).len() == s.len(),
        forall|i: int| 0 <= i < s.len() ==> #[trigger] ascii_lower(s)[i] == ascii_lower_char(s[i]),
        is_ascii_text(s) ==> is_ascii_text(ascii_lower(s)),
        ascii_lower(ascii_lower(s)) == ascii_lower(s),
{
    assert forall|i: int| 0 <= i < s.len() implies ascii_lower_char(#[trigger] ascii_lower(s)[i])
        == ascii_lower(s)[i] && (s[i] <= '\u{7f}' ==> ascii_lower(s)[i] <= '\u{7f}') by {
        lemma_ascii_lower_char(s[i]);
    }
    assert(ascii_lower(ascii_lower(s)) =~= ascii_lower(s));
}

/// Taking off trailing dots and ASCII lower-casing can be done in either
/// order.
pub proof fn lemma_strip_dots_ascii_lower(s: Seq<char>)
    ensures
        strip_trailing_dots(ascii_lower(s)) == ascii_lower(strip_trailing_dots(s)),
    decreases s.len(),
{
    lemma_ascii_lower(s);
    if s.len() > 0 {
        lemma_ascii_lower_char(s.last());
        assert(ascii_lower(s).last() == ascii_lower_char(s.last()));
        assert(ascii_lower(s).drop_last() =~= ascii_lower(s.drop_last()));
        lemma_strip_dots_ascii_lower(s.drop_last());
    } else {
        assert(ascii_lower(s) =~= s);
    }
}

/// Taking off trailing dots keeps ASCII text ASCII.
pub proof fn lemma_strip_dots_ascii(s: Seq<char>)
    requires
        is_ascii_text(s),
    ensures
        is_ascii_text(strip_trailing_dots(s)),
    decreases s.len(),
{
    if s.len() > 0 && s.last() == '.' {
        assert forall|i: int| 0 <= i < s.drop_last().len() implies #[trigger] s.drop_last()[i]
            <= '\u{7f}' by {
            assert(s.drop_last()[i] == s[i]);
        }
        lemma_strip_dots_ascii(s.drop_last());
    }
}

/// The domain as the classifier keys it, for ASCII text: trailing dots
/// taken off, then ASCII capitals made small.
pub open spec fn ascii_normalized(domain: Seq<char>) -> Seq<char> {
    ascii_lower(strip_trailing_dots(domain))
}

/// Letter case does not matter to the key: two names that agree once ASCII
/// lower-cased have the same key.
pub proof fn law_ascii_case_ignored(x: Seq<char>, y: Seq<char>)
    requires
        ascii_lower(x) == ascii_lower(y),
    ensures
        ascii_normalized(x) == ascii_normalized(y),
{
    lemma_strip_dots_ascii_lower(x);
    lemma_strip_dots_ascii_lower(y);
}

/// Trailing dots do not matter to the key.
pub proof fn law_trailing_dots_ignored(x: Seq<char>)
    ensures
        normalized(x.push('.')) == normalized(x),
        ascii_normalized(x.push('.')) == ascii_normalized(x),
{
    assert(x.push('.').drop_last() =~= x);
}

/// `str::to_lowercase`: std documents it as returning the lowercase
/// equivalent of the string, as a new `String`, by the Unicode `Lowercase`
/// property.  The contract names that result; of it, it states only that on
/// ASCII text it maps `A`..`Z` to `a`..`z` and keeps every other character,
/// which is what the Unicode lowercase mapping does on ASCII.  What it does
/// to other characters is left unsaid.
#[verifier::external_body]
pub(crate) fn to_lowercase(s: &str) -> (r: String)
    ensures
        r@ == lowercase(s@),
        is_ascii_text(s@) ==> r@ == ascii_lower(s@),
{
    s.to_lowercase()
}

/// The set of the strings in `v`.
pub fn string_set(v: &Vec<String>) -> (set: StringHashSet)
    ensures
        set@ == v.deep_view().to_set(),
{
    let mut set = StringHashSet::new();
    let mut i: usize = 0;
    while i < v.len()
        invariant
            i <= v.len(),
            set@ == v.deep_view().take(i as int).to_set(),
        decreases v.len() - i,
    {
        let ghost before = v.deep_view().take(i as int);
        set.insert(v[i].clone());
        assert(v.deep_view().take(i + 1) == before.push(v.deep_view()[i as int]));
        assert(set@ =~= v.deep_view().take(i + 1).to_set()) by {
            assert forall|x: Seq<char>| set@.contains(x) implies v.deep_view().take(i + 1).contains(x) by {
                if x != v.deep_view()[i as int] {
                    let w = choose|w: int| 0 <= w < before.len() && before[w] == x;
                    assert(v.deep_view().take(i + 1)[w] == x);
                } else {
                    assert(v.deep_view().take(i + 1)[i as int] == x);
                }
            }
            assert forall|x: Seq<char>| v.deep_view().take(i + 1).contains(x) implies set@.contains(x) by {
                let t = v.deep_view().take(i + 1);
                let w = choose|w: int| 0 <= w < t.len() && t[w] == x;
                if w < i {
                    assert(before[w] == x);
                }
            }
        }
        i = i + 1;
    }
    assert(v.deep_view().take(v.len() as int) == v.deep_view());
    set
}

/// The domain as the classifier keys it: trailing dots taken off, then
/// lower-cased.
pub open spec fn normalized(domain: Seq<char>) -> Seq<char> {
    lowercase(strip_trailing_dots(domain))
}

/// The domain as the classifier keys it: trailing dots taken off, then
/// lower-cased.
pub fn normalize_domain(domain: &str) -> (r: String)
    ensures
        r@ == normalized(domain@),
        is_ascii_text(domain@) ==> r@ == ascii_normalized(domain@),
{
    proof {
        if is_ascii_text(domain@) {
            lemma_strip_dots_ascii(domain@);
        }
    }
    to_lowercase(trim_trailing_dots(domain))
}

} // verus!
