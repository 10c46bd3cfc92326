//! The linguistic and structural features that the classifier reads from a
//! domain name, as far as they are counts and pieces of text.  The ratios,
//! the entropy and the n-gram score divide and take logarithms of these
//! counts; that floating-point part is done by the caller.
use vstd::prelude::*;
use crate::text::{chars_of, string_of, to_lowercase, lowercase};

verus! {

// ---------------------------------------------------------------------------
// Character classes
// ---------------------------------------------------------------------------

/// One of the vowels `a e i o u` (lower case only).
pub open spec fn is_vowel(c: char) -> bool {
    c == 'a' || c == 'e' || c == 'i' || c == 'o' || c == 'u'
}

/// One of the consonants `bcdfghjklmnpqrstvwxyz` (lower case only).
pub open spec fn is_consonant(c: char) -> bool {
    'a' <= c && c <= 'z' && !is_vowel(c)
}

/// An ASCII decimal digit.
pub open spec fn is_digit(c: char) -> bool {
    '0' <= c && c <= '9'
}

fn vowel(c: char) -> (b: bool)
    ensures
        b == is_vowel(c),
{
    c == 'a' || c == 'e' || c == 'i' || c == 'o' || c == 'u'
}

fn consonant(c: char) -> (b: bool)
    ensures
        b == is_consonant(c),
{
    'a' <= c && c <= 'z' && !vowel(c)
}

// ---------------------------------------------------------------------------
// Laws of the character classes and counts
// ---------------------------------------------------------------------------

/// Every lower-case ASCII letter is a vowel or a consonant, never both, and
/// nothing else is either.
pub proof fn law_letters_are_vowels_or_consonants(c: char)
    ensures
        ('a' <= c && c <= 'z') ==> (is_vowel(c) != is_consonant(c)),
        is_vowel(c) || is_consonant(c) ==> ('a' <= c && c <= 'z'),
{
}

/// The vowels are the characters of `"aeiou"`; the consonants are the
/// characters of `"bcdfghjklmnpqrstvwxyz"`.
pub proof fn law_vowels_and_consonants_listed(c: char)
    ensures
        is_vowel(c) <==> "aeiou"@.contains(c),
        is_consonant(c) <==> "bcdfghjklmnpqrstvwxyz"@.contains(c),
{
    reveal_strlit("aeiou");
    reveal_strlit("bcdfghjklmnpqrstvwxyz");
    if "aeiou"@.contains(c) {
        let i = choose|i: int| 0 <= i < "aeiou"@.len() && "aeiou"@[i] == c;
        assert(i == 0 || i == 1 || i == 2 || i == 3 || i == 4);
    }
    if is_vowel(c) {
        if c == 'a' {
            assert("aeiou"@[0] == c);
        } else if c == 'e' {
            assert("aeiou"@[1] == c);
        } else if c == 'i' {
            assert("aeiou"@[2] == c);
        } else if c == 'o' {
            assert("aeiou"@[3] == c);
        } else if c == 'u' {
            assert("aeiou"@[4] == c);
        }
    }
    if "bcdfghjklmnpqrstvwxyz"@.contains(c) {
        let i = choose|i: int| 0 <= i < "bcdfghjklmnpqrstvwxyz"@.len() && "bcdfghjklmnpqrstvwxyz"@[i] == c;
        assert(i == 0 || i == 1 || i == 2 || i == 3 || i == 4 || i == 5 || i == 6 || i == 7 || i == 8 || i == 9 || i == 10 || i == 11 || i == 12 || i == 13 || i == 14 || i == 15 || i == 16 || i == 17 || i == 18 || i == 19 || i == 20);
    }
    if is_consonant(c) {
        if c == 'b' {
            assert("bcdfghjklmnpqrstvwxyz"@[0] == c);
        } else if c == 'c' {
            assert("bcdfghjklmnpqrstvwxyz"@[1] == c);
        } else if c == 'd' {
            assert("bcdfghjklmnpqrstvwxyz"@[2] == c);
        } else if c == 'f' {
            assert("bcdfghjklmnpqrstvwxyz"@[3] == c);
        } else if c == 'g' {
            assert("bcdfghjklmnpqrstvwxyz"@[4] == c);
        } else if c == 'h' {
            assert("bcdfghjklmnpqrstvwxyz"@[5] == c);
        } else if c == 'j' {
            assert("bcdfghjklmnpqrstvwxyz"@[6] == c);
        } else if c == 'k' {
            assert("bcdfghjklmnpqrstvwxyz"@[7] == c);
        } else if c == 'l' {
            assert("bcdfghjklmnpqrstvwxyz"@[8] == c);
        } else if c == 'm' {
            assert("bcdfghjklmnpqrstvwxyz"@[9] == c);
        } else if c == 'n' {
            assert("bcdfghjklmnpqrstvwxyz"@[10] == c);
        } else if c == 'p' {
            assert("bcdfghjklmnpqrstvwxyz"@[11] == c);
        } else if c == 'q' {
            assert("bcdfghjklmnpqrstvwxyz"@[12] == c);
        } else if c == 'r' {
            assert("bcdfghjklmnpqrstvwxyz"@[13] == c);
        } else if c == 's' {
            assert("bcdfghjklmnpqrstvwxyz"@[14] == c);
        } else if c == 't' {
            assert("bcdfghjklmnpqrstvwxyz"@[15] == c);
        } else if c == 'v' {
            assert("bcdfghjklmnpqrstvwxyz"@[16] == c);
        } else if c == 'w' {
            assert("bcdfghjklmnpqrstvwxyz"@[17] == c);
        } else if c == 'x' {
            assert("bcdfghjklmnpqrstvwxyz"@[18] == c);
        } else if c == 'y' {
            assert("bcdfghjklmnpqrstvwxyz"@[19] == c);
        } else if c == 'z' {
            assert("bcdfghjklmnpqrstvwxyz"@[20] == c);
        }
    }
}

/// A one-character string holds its character once and no other.
pub proof fn law_count_of_single(x: char, c: char)
    ensures
        count_of(seq![x], c) == if x == c {
            1int
        } else {
            0int
        },
{
    assert(seq![x].drop_last() =~= Seq::<char>::empty());
    assert(count_of(Seq::<char>::empty(), c) == 0);
    assert(seq![x].last() == x);
}

/// The vowel count is the number of `a`s, `e`s, `i`s, `o`s and `u`s.
pub proof fn law_vowels_are_counted(s: Seq<char>)
    ensures
        vowels_in(s) == count_of(s, 'a') + count_of(s, 'e') + count_of(s, 'i') + count_of(s, 'o')
            + count_of(s, 'u'),
    decreases s.len(),
{
    if s.len() > 0 {
        law_vowels_are_counted(s.drop_last());
    }
}

/// The digit count is the number of `0`s, `1`s, ... and `9`s.
pub proof fn law_digits_are_counted(s: Seq<char>)
    ensures
        digits_in(s) == count_of(s, '0') + count_of(s, '1') + count_of(s, '2') + count_of(s, '3')
            + count_of(s, '4') + count_of(s, '5') + count_of(s, '6') + count_of(s, '7') + count_of(
            s,
            '8',
        ) + count_of(s, '9'),
    decreases s.len(),
{
    if s.len() > 0 {
        law_digits_are_counted(s.drop_last());
        let c = s.last();
        if '0' <= c && c <= '9' {
            assert(c == '0' || c == '1' || c == '2' || c == '3' || c == '4' || c == '5' || c == '6'
                || c == '7' || c == '8' || c == '9');
        }
    }
}

// ---------------------------------------------------------------------------
// Counting
// ---------------------------------------------------------------------------

/// How many times `c` occurs in `s`.
pub open spec fn count_of(s: Seq<char>, c: char) -> nat
    decreases s.len(),
{
    if s.len() == 0 {
        0
    } else {
        count_of(s.drop_last(), c) + if s.last() == c {
            1nat
        } else {
            0nat
        }
    }
}

/// How many characters of `s` are ASCII digits.
pub open spec fn digits_in(s: Seq<char>) -> nat
    decreases s.len(),
{
    if s.len() == 0 {
        0
    } else {
        digits_in(s.drop_last()) + if is_digit(s.last()) {
            1nat
        } else {
            0nat
        }
    }
}

/// How many characters of `s` are vowels.
pub open spec fn vowels_in(s: Seq<char>) -> nat
    decreases s.len(),
{
    if s.len() == 0 {
        0
    } else {
        vowels_in(s.drop_last()) + if is_vowel(s.last()) {
            1nat
        } else {
            0nat
        }
    }
}

pub proof fn lemma_counts_bounded(s: Seq<char>, c: char)
    ensures
        count_of(s, c) <= s.len(),
        digits_in(s) <= s.len(),
        vowels_in(s) <= s.len(),
        digits_in(s) + vowels_in(s) <= s.len(),
    decreases s.len(),
{
    if s.len() > 0 {
        lemma_counts_bounded(s.drop_last(), c);
    }
}

/// The number of `'.'` characters in `domain`.
pub fn dot_count(domain: &str) -> (r: usize)
    ensures
        r == count_of(domain@, '.'),
{
    let cs = chars_of(domain);
    let mut r: usize = 0;
    let mut i: usize = 0;
    while i < cs.len()
        invariant
            i <= cs.len(),
            cs@ == domain@,
            r == count_of(cs@.take(i as int), '.'),
        decreases cs.len() - i,
    {
        proof {
            assert(cs@.take(i + 1).drop_last() == cs@.take(i as int));
            lemma_counts_bounded(cs@.take(i as int), '.');
        }
        if cs[i] == '.' {
            r = r + 1;
        }
        i = i + 1;
    }
    assert(cs@.take(cs.len() as int) == cs@);
    r
}

/// The number of ASCII digits in `s`; the digit ratio divides it by the
/// byte length of `s`.
pub fn digit_count(s: &str) -> (r: usize)
    ensures
        r == digits_in(s@),
{
    let cs = chars_of(s);
    let mut r: usize = 0;
    let mut i: usize = 0;
    while i < cs.len()
        invariant
            i <= cs.len(),
            cs@ == s@,
            r == digits_in(cs@.take(i as int)),
        decreases cs.len() - i,
    {
        proof {
            assert(cs@.take(i + 1).drop_last() == cs@.take(i as int));
            lemma_counts_bounded(cs@.take(i as int), ' ');
        }
        if '0' <= cs[i] && cs[i] <= '9' {
            r = r + 1;
        }
        i = i + 1;
    }
    assert(cs@.take(cs.len() as int) == cs@);
    r
}

/// The number of vowels in `s`; the vowel ratio divides it by the byte
/// length of `s`.
pub fn vowel_count(s: &str) -> (r: usize)
    ensures
        r == vowels_in(s@),
{
    let cs = chars_of(s);
    let mut r: usize = 0;
    let mut i: usize = 0;
    while i < cs.len()
        invariant
            i <= cs.len(),
            cs@ == s@,
            r == vowels_in(cs@.take(i as int)),
        decreases cs.len() - i,
    {
        proof {
            assert(cs@.take(i + 1).drop_last() == cs@.take(i as int));
            lemma_counts_bounded(cs@.take(i as int), ' ');
        }
        if vowel(cs[i]) {
            r = r + 1;
        }
        i = i + 1;
    }
    assert(cs@.take(cs.len() as int) == cs@);
    r
}

/// Whether `s` holds a `'-'`; the hyphen feature is 1 when it does, else 0.
pub fn contains_hyphen(s: &str) -> (r: bool)
    ensures
        r == s@.contains('-'),
{
    let cs = chars_of(s);
    let mut i: usize = 0;
    while i < cs.len()
        invariant
            i <= cs.len(),
            cs@ == s@,
            forall|k: int| 0 <= k < i ==> cs@[k] != '-',
        decreases cs.len() - i,
    {
        if cs[i] == '-' {
            assert(s@[i as int] == '-');
            return true;
        }
        i = i + 1;
    }
    false
}

// ---------------------------------------------------------------------------
// Character frequencies
// ---------------------------------------------------------------------------

/// The sum of the counts in a frequency table.
pub open spec fn total(t: Seq<(char, usize)>) -> int
    decreases t.len(),
{
    if t.len() == 0 {
        0
    } else {
        total(t.drop_last()) + t.last().1
    }
}

/// `t` lists distinct characters.
pub open spec fn distinct_keys(t: Seq<(char, usize)>) -> bool {
    forall|a: int, b: int| 0 <= a < b < t.len() ==> #[trigger] t[a].0 != #[trigger] t[b].0
}

/// `t` is a frequency table of `s`: each character of `s` once, with the
/// number of times it occurs in `s`.
pub open spec fn is_frequency_table(t: Seq<(char, usize)>, s: Seq<char>) -> bool {
    &&& distinct_keys(t)
    &&& forall|k: int| 0 <= k < t.len() ==> #[trigger] t[k].1 == count_of(s, t[k].0)
    &&& forall|k: int| 0 <= k < t.len() ==> s.contains(#[trigger] t[k].0)
    &&& forall|c: char|
        s.contains(c) ==> exists|k: int| 0 <= k < t.len() && #[trigger] t[k].0 == c
}

proof fn lemma_total_push(t: Seq<(char, usize)>, e: (char, usize))
    ensures
        total(t.push(e)) == total(t) + e.1,
{
    assert(t.push(e).drop_last() == t);
}

proof fn lemma_total_update(t: Seq<(char, usize)>, j: int, e: (char, usize))
    requires
        0 <= j < t.len(),
    ensures
        total(t.update(j, e)) == total(t) - t[j].1 + e.1,
    decreases t.len(),
{
    if j == t.len() - 1 {
        assert(t.update(j, e).drop_last() == t.drop_last());
    } else {
        lemma_total_update(t.drop_last(), j, e);
        assert(t.update(j, e).drop_last() == t.drop_last().update(j, e));
    }
}

pub proof fn lemma_total_at_least_len(t: Seq<(char, usize)>)
    requires
        forall|k: int| 0 <= k < t.len() ==> #[trigger] t[k].1 >= 1,
    ensures
        total(t) >= t.len(),
    decreases t.len(),
{
    if t.len() > 0 {
        assert(t.drop_last().len() == t.len() - 1);
        assert forall|k: int| 0 <= k < t.drop_last().len() implies #[trigger] t.drop_last()[k].1
            >= 1 by {
            assert(t.drop_last()[k] == t[k]);
        }
        lemma_total_at_least_len(t.drop_last());
        assert(t[t.len() - 1].1 >= 1);
    }
}

/// The distinct characters of `s`, each with the number of times it occurs.
/// The counts add up to the length of `s`; the entropy feature is computed
/// from them, and the unique-character ratio from how many there are.
pub fn char_counts(s: &str) -> (t: Vec<(char, usize)>)
    ensures
        is_frequency_table(t@, s@),
        total(t@) == s@.len(),
        forall|k: int| 0 <= k < t.len() ==> #[trigger] t@[k].1 >= 1,
        t.len() <= s@.len(),
{
    let cs = chars_of(s);
    let mut t: Vec<(char, usize)> = Vec::new();
    let mut i: usize = 0;
    while i < cs.len()
        invariant
            i <= cs.len(),
            cs@ == s@,
            is_frequency_table(t@, cs@.take(i as int)),
            total(t@) == i,
            forall|k: int| 0 <= k < t.len() ==> #[trigger] t@[k].1 >= 1,
        decreases cs.len() - i,
    {
        let c = cs[i];
        let ghost prev = cs@.take(i as int);
        let ghost next = cs@.take(i + 1);
        proof {
            assert(next.drop_last() == prev);
            assert(next.last() == c);
            lemma_counts_bounded(prev, c);
        }
        let mut j: usize = 0;
        while j < t.len() && t[j].0 != c
            invariant
                j <= t.len(),
                forall|k: int| 0 <= k < j ==> t@[k].0 != c,
            decreases t.len() - j,
        {
            j = j + 1;
        }
        let ghost old_t = t@;
        if j < t.len() {
            let cnt = t[j].1;
            assert(cnt == count_of(prev, c));
            t.set(j, (c, cnt + 1));
            proof {
                lemma_total_update(old_t, j as int, (c, (cnt + 1) as usize));
                assert forall|k: int| 0 <= k < t.len() implies #[trigger] t@[k].1 == count_of(
                    next,
                    t@[k].0,
                ) by {
                    if k != j {
                        assert(old_t[k].0 != c);
                    }
                }
                assert forall|k: int| 0 <= k < t.len() implies next.contains(#[trigger] t@[k].0) by {
                    if k == j {
                        assert(next[i as int] == c);
                    } else {
                        assert(prev.contains(old_t[k].0));
                        let w = choose|w: int| 0 <= w < prev.len() && prev[w] == old_t[k].0;
                        assert(next[w] == prev[w]);
                    }
                }
                assert forall|x: char| next.contains(x) implies exists|k: int|
                    0 <= k < t.len() && #[trigger] t@[k].0 == x by {
                    if x == c {
                        assert(t@[j as int].0 == x);
                    } else {
                        let w = choose|w: int| 0 <= w < next.len() && next[w] == x;
                        assert(w < i);
                        assert(prev[w] == x);
                        assert(prev.contains(x));
                        let k = choose|k: int| 0 <= k < old_t.len() && #[trigger] old_t[k].0 == x;
                        assert(t@[k].0 == x);
                    }
                }
            }
        } else {
            t.push((c, 1));
            proof {
                lemma_total_push(old_t, (c, 1usize));
                assert(!prev.contains(c)) by {
                    if prev.contains(c) {
                        let k = choose|k: int| 0 <= k < old_t.len() && #[trigger] old_t[k].0 == c;
                        assert(old_t[k].0 != c);
                    }
                }
                assert(count_of(prev, c) == 0) by {
                    lemma_absent_count(prev, c);
                }
                assert forall|k: int| 0 <= k < t.len() implies #[trigger] t@[k].1 == count_of(
                    next,
                    t@[k].0,
                ) by {
                    if k < old_t.len() {
                        assert(old_t[k].0 != c);
                    }
                }
                assert forall|k: int| 0 <= k < t.len() implies next.contains(#[trigger] t@[k].0) by {
                    if k == old_t.len() {
                        assert(next[i as int] == c);
                    } else {
                        assert(prev.contains(old_t[k].0));
                        let w = choose|w: int| 0 <= w < prev.len() && prev[w] == old_t[k].0;
                        assert(next[w] == prev[w]);
                    }
                }
                assert forall|x: char| next.contains(x) implies exists|k: int|
                    0 <= k < t.len() && #[trigger] t@[k].0 == x by {
                    if x == c {
                        assert(t@[old_t.len() as int].0 == x);
                    } else {
                        let w = choose|w: int| 0 <= w < next.len() && next[w] == x;
                        assert(w < i);
                        assert(prev[w] == x);
                        assert(prev.contains(x));
                        let k = choose|k: int| 0 <= k < old_t.len() && #[trigger] old_t[k].0 == x;
                        assert(t@[k].0 == x);
                    }
                }
            }
        }
        i = i + 1;
    }
    assert(cs@.take(cs.len() as int) == cs@);
    proof {
        lemma_total_at_least_len(t@);
    }
    t
}

/// A character that does not occur in `s` is counted zero times.
pub proof fn lemma_absent_count(s: Seq<char>, c: char)
    requires
        !s.contains(c),
    ensures
        count_of(s, c) == 0,
    decreases s.len(),
{
    if s.len() > 0 {
        assert(s.last() != c) by {
            assert(s[s.len() - 1] == s.last());
        }
        assert forall|x: char| s.drop_last().contains(x) implies s.contains(x) by {
            let w = choose|w: int| 0 <= w < s.drop_last().len() && s.drop_last()[w] == x;
            assert(s[w] == x);
        }
        lemma_absent_count(s.drop_last(), c);
    }
}

// ---------------------------------------------------------------------------
// Consonant runs
// ---------------------------------------------------------------------------

/// `s[i..j]` holds consonants only.
pub open spec fn consonant_run(s: Seq<char>, i: int, j: int) -> bool {
    &&& 0 <= i <= j <= s.len()
    &&& forall|k: int| i <= k < j ==> is_consonant(#[trigger] s[k])
}

/// `r` is the length of the longest run of consecutive consonants in `s`.
pub open spec fn is_longest_consonant_run(s: Seq<char>, r: int) -> bool {
    &&& exists|i: int| #[trigger] consonant_run(s, i, i + r)
    &&& forall|i: int, j: int| #[trigger] consonant_run(s, i, j) ==> j - i <= r
}

/// The length of the longest run of consecutive consonants in `s`.
pub fn longest_consonant_run(s: &str) -> (r: usize)
    ensures
        is_longest_consonant_run(s@, r as int),
{
    let cs = chars_of(s);
    let ghost t = cs@;
    let n = cs.len();
    let mut max_run: usize = 0;
    let mut current: usize = 0;
    let ghost mut witness: int = 0;
    let mut k: usize = 0;
    assert(consonant_run(t, 0, 0));
    while k < n
        invariant
            n == t.len(),
            t == s@,
            cs@ == t,
            k <= n,
            current <= k,
            current <= max_run <= k,
            consonant_run(t, k - current, k as int),
            k - current > 0 ==> !is_consonant(t[k - current - 1]),
            consonant_run(t, witness, witness + max_run),
            forall|i: int, j: int| #[trigger] consonant_run(t, i, j) && j <= k ==> j - i <= max_run,
        decreases n - k,
    {
        let c = cs[k];
        let ghost old_current = current as int;
        let ghost old_max = max_run as int;
        if consonant(c) {
            current = current + 1;
            if current > max_run {
                max_run = current;
                proof {
                    witness = k + 1 - current;
                }
            }
            assert(consonant_run(t, k + 1 - current, k + 1));
        } else {
            current = 0;
        }
        proof {
            assert forall|i: int, j: int| #[trigger]
                consonant_run(t, i, j) && j <= k + 1 implies j - i <= max_run by {
                if j == k + 1 && i < j {
                    assert(is_consonant(t[k as int]));
                    if i < k - old_current {
                        assert(is_consonant(t[k - old_current - 1]));
                    }
                }
            }
        }
        k = k + 1;
    }
    proof {
        assert(consonant_run(t, witness, witness + max_run));
    }
    max_run
}

// ---------------------------------------------------------------------------
// Top-level domain and hostname
// ---------------------------------------------------------------------------

/// The position of the last `'.'` in `s[..j]`, or -1 when there is none.
pub open spec fn last_dot_before(s: Seq<char>, j: int) -> int
    decreases j,
{
    if j <= 0 || j > s.len() {
        -1
    } else if s[j - 1] == '.' {
        j - 1
    } else {
        last_dot_before(s, j - 1)
    }
}

/// The position of the last `'.'` in `s`, or -1 when there is none.
pub open spec fn last_dot(s: Seq<char>) -> int {
    last_dot_before(s, s.len() as int)
}

pub proof fn lemma_last_dot_before(s: Seq<char>, j: int)
    requires
        0 <= j <= s.len(),
    ensures
        -1 <= last_dot_before(s, j) < j,
        last_dot_before(s, j) >= 0 ==> s[last_dot_before(s, j)] == '.',
        forall|k: int| last_dot_before(s, j) < k < j ==> #[trigger] s[k] != '.',
    decreases j,
{
    if j > 0 && s[j - 1] != '.' {
        lemma_last_dot_before(s, j - 1);
    }
}

/// The top-level domain: what follows the last `'.'`, or nothing when the
/// domain has no `'.'`.
pub open spec fn tld_of(s: Seq<char>) -> Seq<char> {
    if last_dot(s) >= 0 {
        s.subrange(last_dot(s) + 1, s.len() as int)
    } else {
        Seq::empty()
    }
}

/// The hostname: what precedes the last `'.'`, or the whole domain when it
/// has no `'.'`.
pub open spec fn hostname_of(s: Seq<char>) -> Seq<char> {
    if last_dot(s) >= 0 {
        s.subrange(0, last_dot(s))
    } else {
        s
    }
}

/// The position just after the last `'.'` of `cs`, or 0 when there is none.
fn after_last_dot(cs: &Vec<char>) -> (j: usize)
    ensures
        j <= cs.len(),
        j == last_dot(cs@) + 1,
{
    let mut j = cs.len();
    while j > 0 && cs[j - 1] != '.'
        invariant
            j <= cs.len(),
            last_dot_before(cs@, j as int) == last_dot(cs@),
        decreases j,
    {
        j = j - 1;
    }
    j
}

/// The top-level domain of `domain`: the text after its last `'.'`, or the
/// empty string when it has none.
pub fn extract_tld(domain: &str) -> (r: &str)
    ensures
        r@ == tld_of(domain@),
{
    let cs = chars_of(domain);
    let j = after_last_dot(&cs);
    if j > 0 {
        domain.substring_char(j, cs.len())
    } else {
        domain.substring_char(0, 0)
    }
}

/// The hostname of `domain`: the text before its last `'.'`, or the whole
/// domain when it has none.
pub fn extract_hostname(domain: &str) -> (r: &str)
    ensures
        r@ == hostname_of(domain@),
{
    let cs = chars_of(domain);
    let j = after_last_dot(&cs);
    if j > 0 {
        domain.substring_char(0, j - 1)
    } else {
        assert(domain@.subrange(0, cs.len() as int) == domain@);
        domain.substring_char(0, cs.len())
    }
}

/// A domain with a `'.'` is its hostname, a `'.'`, and its top-level
/// domain; the top-level domain holds no `'.'`; a domain without a `'.'` is
/// all hostname and has an empty top-level domain.
pub proof fn law_domain_splits_at_last_dot(s: Seq<char>)
    ensures
        !tld_of(s).contains('.'),
        s.contains('.') ==> hostname_of(s) + seq!['.'] + tld_of(s) == s,
        !s.contains('.') ==> hostname_of(s) == s && tld_of(s).len() == 0,
{
    lemma_last_dot_before(s, s.len() as int);
    let k = last_dot(s);
    if k >= 0 {
        assert(hostname_of(s) + seq!['.'] + tld_of(s) =~= s);
        assert forall|i: int| 0 <= i < tld_of(s).len() implies tld_of(s)[i] != '.' by {
            assert(tld_of(s)[i] == s[k + 1 + i]);
        }
    } else {
        assert forall|i: int| 0 <= i < s.len() implies s[i] != '.' by {}
    }
}

/// Counting distributes over concatenation.
pub proof fn lemma_count_of_concat(a: Seq<char>, b: Seq<char>, c: char)
    ensures
        count_of(a + b, c) == count_of(a, c) + count_of(b, c),
    decreases b.len(),
{
    if b.len() == 0 {
        assert(a + b =~= a);
    } else {
        lemma_count_of_concat(a, b.drop_last(), c);
        assert((a + b).drop_last() =~= a + b.drop_last());
        assert((a + b).last() == b.last());
    }
}

/// The dot count of a domain with a `'.'` is one more than that of its
/// hostname: the top-level domain adds the last dot and no other.
pub proof fn law_dot_count_of_hostname(s: Seq<char>)
    requires
        s.contains('.'),
    ensures
        count_of(s, '.') == count_of(hostname_of(s), '.') + 1,
{
    law_domain_splits_at_last_dot(s);
    lemma_count_of_concat(hostname_of(s) + seq!['.'], tld_of(s), '.');
    lemma_count_of_concat(hostname_of(s), seq!['.'], '.');
    assert(seq!['.'].drop_last() =~= Seq::<char>::empty());
    assert(count_of(Seq::<char>::empty(), '.') == 0);
    assert(count_of(seq!['.'], '.') == 1);
    lemma_absent_count(tld_of(s), '.');
    assert(hostname_of(s) + seq!['.'] + tld_of(s) == s);
}

/// No character is both a digit and a vowel, so the digit and vowel counts
/// of a string add up to at most its length.
pub proof fn law_digits_and_vowels_within_length(s: Seq<char>)
    ensures
        digits_in(s) + vowels_in(s) <= s.len(),
{
    lemma_counts_bounded(s, '.');
}

/// The longest consonant run is no longer than the string, and it is zero
/// exactly when the string holds no consonant.
pub proof fn law_consonant_run_bounds(s: Seq<char>, r: int)
    requires
        is_longest_consonant_run(s, r),
    ensures
        0 <= r <= s.len(),
        r == 0 <==> forall|k: int| 0 <= k < s.len() ==> !is_consonant(#[trigger] s[k]),
{
    let i = choose|i: int| #[trigger] consonant_run(s, i, i + r);
    assert(consonant_run(s, i, i + r));
    if r == 0 {
        assert forall|k: int| 0 <= k < s.len() implies !is_consonant(#[trigger] s[k]) by {
            if is_consonant(s[k]) {
                assert(consonant_run(s, k, k + 1));
            }
        }
    } else {
        assert(is_consonant(s[i]));
    }
}

/// A consonant run inside one part of a concatenation is a run of that
/// part, and a run of a part is a run of the concatenation.
proof fn lemma_runs_of_parts(a: Seq<char>, b: Seq<char>, i: int, j: int)
    ensures
        consonant_run(a + b, i, j) && j <= a.len() ==> consonant_run(a, i, j),
        consonant_run(a + b, i, j) && i >= a.len() ==> consonant_run(b, i - a.len(), j - a.len()),
        consonant_run(a, i, j) ==> consonant_run(a + b, i, j),
        consonant_run(b, i, j) ==> consonant_run(a + b, i + a.len(), j + a.len()),
{
    let s = a + b;
    let n = a.len() as int;
    if consonant_run(s, i, j) && j <= n {
        assert forall|k: int| i <= k < j implies is_consonant(#[trigger] a[k]) by {
            assert(s[k] == a[k]);
        }
    }
    if consonant_run(s, i, j) && i >= n {
        assert forall|k: int| i - n <= k < j - n implies is_consonant(#[trigger] b[k]) by {
            assert(s[k + n] == b[k]);
        }
    }
    if consonant_run(a, i, j) {
        assert forall|k: int| i <= k < j implies is_consonant(#[trigger] s[k]) by {
            assert(s[k] == a[k]);
        }
    }
    if consonant_run(b, i, j) {
        assert forall|k: int| i + n <= k < j + n implies is_consonant(#[trigger] s[k]) by {
            assert(s[k] == b[k - n]);
        }
    }
}

/// How the longest consonant run of a concatenation relates to those of its
/// parts: joined by a character that is no consonant, the longest run is
/// the longer of the parts' runs; joined directly, it is at least the longer
/// and at most the sum of the two.
pub proof fn law_consonant_run_of_concat(
    a: Seq<char>,
    b: Seq<char>,
    sep: char,
    ra: int,
    rb: int,
    r_sep: int,
    r_cat: int,
)
    requires
        !is_consonant(sep),
        is_longest_consonant_run(a, ra),
        is_longest_consonant_run(b, rb),
        is_longest_consonant_run(a + seq![sep] + b, r_sep),
        is_longest_consonant_run(a + b, r_cat),
    ensures
        r_sep == if ra >= rb {
            ra
        } else {
            rb
        },
        ra <= r_cat && rb <= r_cat,
        r_cat <= ra + rb,
{
    let n = a.len() as int;
    let a2 = a + seq![sep];
    let s = a2 + b;
    assert(a + seq![sep] + b == s);
    let t = a + b;
    let ia = choose|i: int| #[trigger] consonant_run(a, i, i + ra);
    let ib = choose|i: int| #[trigger] consonant_run(b, i, i + rb);
    // the parts' longest runs are runs of both concatenations
    lemma_runs_of_parts(a, b, ia, ia + ra);
    lemma_runs_of_parts(a, b, ib, ib + rb);
    assert(consonant_run(t, ia, ia + ra));
    assert(consonant_run(t, ib + n, ib + rb + n));
    lemma_runs_of_parts(a, seq![sep], ia, ia + ra);
    assert(consonant_run(a2, ia, ia + ra));
    lemma_runs_of_parts(a2, b, ia, ia + ra);
    lemma_runs_of_parts(a2, b, ib, ib + rb);
    assert(consonant_run(s, ia, ia + ra));
    assert(consonant_run(s, ib + n + 1, ib + rb + n + 1));
    // a longest run of the separated concatenation lies in one part
    let is = choose|i: int| #[trigger] consonant_run(s, i, i + r_sep);
    assert(consonant_run(s, is, is + r_sep));
    if is + r_sep <= n {
        lemma_runs_of_parts(a2, b, is, is + r_sep);
        lemma_runs_of_parts(a, seq![sep], is, is + r_sep);
        assert(consonant_run(a, is, is + r_sep));
    } else if is >= n + 1 {
        lemma_runs_of_parts(a2, b, is, is + r_sep);
        assert(consonant_run(b, is - n - 1, is + r_sep - n - 1));
    } else {
        assert(s[n] == sep);
        assert(is_consonant(s[n]));
    }
    // a longest run of the direct concatenation splits into two runs
    let ic = choose|i: int| #[trigger] consonant_run(t, i, i + r_cat);
    assert(consonant_run(t, ic, ic + r_cat));
    if ic + r_cat <= n {
        lemma_runs_of_parts(a, b, ic, ic + r_cat);
        assert(consonant_run(a, ic, ic + r_cat));
        assert(rb >= 0) by {
            assert(consonant_run(b, ib, ib + rb));
        }
    } else if ic >= n {
        lemma_runs_of_parts(a, b, ic, ic + r_cat);
        assert(consonant_run(b, ic - n, ic + r_cat - n));
        assert(ra >= 0) by {
            assert(consonant_run(a, ia, ia + ra));
        }
    } else {
        assert(consonant_run(t, ic, n));
        assert(consonant_run(t, n, ic + r_cat));
        lemma_runs_of_parts(a, b, ic, n);
        lemma_runs_of_parts(a, b, n, ic + r_cat);
        assert(consonant_run(a, ic, n));
        assert(consonant_run(b, 0, ic + r_cat - n));
    }
}

/// The longest consonant run of a one-character string is 1 for a consonant
/// and 0 for any other character.
pub proof fn law_consonant_run_of_single(c: char, r: int)
    requires
        is_longest_consonant_run(seq![c], r),
    ensures
        r == if is_consonant(c) {
            1int
        } else {
            0int
        },
{
    let i = choose|i: int| #[trigger] consonant_run(seq![c], i, i + r);
    assert(consonant_run(seq![c], i, i + r));
    if is_consonant(c) {
        assert(consonant_run(seq![c], 0, 1));
    } else if r > 0 {
        assert(is_consonant(seq![c][i]));
    }
}

// ---------------------------------------------------------------------------
// N-grams
// ---------------------------------------------------------------------------

/// The n-grams of `s`: each window of `n` consecutive characters, in order.
pub open spec fn windows(s: Seq<char>, n: int) -> Seq<Seq<char>> {
    if s.len() < n {
        Seq::empty()
    } else {
        Seq::new((s.len() - n + 1) as nat, |i: int| s.subrange(i, i + n))
    }
}

/// The windows of `n` consecutive characters of `s`, in order; none when
/// `s` is shorter than `n`.
pub fn windows_of(s: &str, n: usize) -> (r: Vec<String>)
    requires
        n > 0,
    ensures
        r.deep_view() == windows(s@, n as int),
{
    let cs = chars_of(s);
    let mut r: Vec<String> = Vec::new();
    if cs.len() < n {
        assert(r.deep_view() =~= windows(s@, n as int));
        return r;
    }
    let count = cs.len() - n + 1;
    let mut i: usize = 0;
    while i < count
        invariant
            cs@ == s@,
            n <= cs.len(),
            count == cs.len() - n + 1,
            i <= count,
            r.len() == i,
            forall|k: int| 0 <= k < i ==> #[trigger] r@[k]@ == cs@.subrange(k, k + n),
        decreases count - i,
    {
        let w = string_of(&cs, i, i + n);
        r.push(w);
        i = i + 1;
    }
    assert(r.deep_view() =~= windows(s@, n as int));
    r
}

/// The character n-grams of the lower-cased `hostname`, which the n-gram
/// score looks up in its table; none when the hostname is shorter than `n`.
pub fn ngrams(hostname: &str, n: usize) -> (r: Vec<String>)
    requires
        n > 0,
    ensures
        r.deep_view() == windows(lowercase(hostname@), n as int),
{
    let lower = to_lowercase(hostname);
    windows_of(lower.as_str(), n)
}

/// The n-grams are the pieces of `n` consecutive characters, one starting at
/// each position that leaves room for `n` characters, in order.
pub proof fn law_windows_are_pieces(s: Seq<char>, n: int)
    requires
        n > 0,
    ensures
        windows(s, n).len() == if s.len() < n {
            0
        } else {
            s.len() - n + 1
        },
        forall|k: int, j: int|
            0 <= k < windows(s, n).len() && 0 <= j < n ==> #[trigger] windows(s, n)[k][j] == s[k
                + j] && windows(s, n)[k].len() == n,
{
}

} // verus!
