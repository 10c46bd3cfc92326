//! The decisions of the classifier that do not need the model: whitelist
//! and blacklist screening, and the tier and flags of a verdict.
use vstd::prelude::*;
use vstd::hash_set::StringHashSet;
use crate::blacklist::{Blacklist, listed};
use crate::text::{
    chars_of, line_chars, lines_of, lowercase, normalized, string_of, string_set, to_lowercase,
    trim_bounds, trimmed,
};

verus! {

/// The tier a query is classed into.
#[derive(Debug, Clone, Copy, PartialEq, Eq)]
pub enum Tier {
    /// On the whitelist.
    Whitelisted,
    /// On the blacklist of known DGA domains.
    Blacklisted,
    /// The model judges it DGA with high confidence.
    HighConfidence,
    /// The model judges it DGA, below the high-confidence mark.
    Suspicious,
    /// Not judged DGA.
    Clean,
}

impl Tier {
    /// The tier of a domain that the model judged: `is_dga` when its
    /// probability reaches the threshold, `high_confidence` when it reaches
    /// the high-confidence mark.
    pub fn from_model(is_dga: bool, high_confidence: bool) -> (t: Tier)
        ensures
            t == model_tier(is_dga, high_confidence),
    {
        if is_dga && high_confidence {
            Tier::HighConfidence
        } else if is_dga {
            Tier::Suspicious
        } else {
            Tier::Clean
        }
    }

    /// The label that the command line prints before the probability.
    pub fn label(&self) -> (s: &'static str)
        ensures
            s@ == tier_label(*self),
    {
        match self {
            Tier::Blacklisted => "[BLACKLISTED]      ",
            Tier::HighConfidence => "[DGA LIKELY]       ",
            Tier::Suspicious => "[DGA SUSPECTED]    ",
            Tier::Whitelisted => "[WHITELISTED]      ",
            Tier::Clean => "[CLEAN]            ",
        }
    }
}

/// The tier of a domain that the model judged.
pub open spec fn model_tier(is_dga: bool, high_confidence: bool) -> Tier {
    if is_dga && high_confidence {
        Tier::HighConfidence
    } else if is_dga {
        Tier::Suspicious
    } else {
        Tier::Clean
    }
}

/// The printed label of each tier.
pub open spec fn tier_label(t: Tier) -> Seq<char> {
    match t {
        Tier::Blacklisted => "[BLACKLISTED]      "@,
        Tier::HighConfidence => "[DGA LIKELY]       "@,
        Tier::Suspicious => "[DGA SUSPECTED]    "@,
        Tier::Whitelisted => "[WHITELISTED]      "@,
        Tier::Clean => "[CLEAN]            "@,
    }
}

/// The tier and flags of a verdict.
#[derive(Debug, Clone, Copy)]
pub struct Outcome {
    pub tier: Tier,
    pub is_dga: bool,
    pub whitelisted: bool,
}

/// The outcome of a domain that the model judged.
pub open spec fn model_outcome(is_dga: bool, high_confidence: bool) -> Outcome {
    Outcome { tier: model_tier(is_dga, high_confidence), is_dga, whitelisted: false }
}

impl Outcome {
    /// The outcome of a domain that the model judged: DGA when its
    /// probability reaches the threshold, high-confidence DGA when it also
    /// reaches the high-confidence mark.
    pub fn from_model(is_dga: bool, high_confidence: bool) -> (o: Outcome)
        ensures
            o == model_outcome(is_dga, high_confidence),
            !o.whitelisted,
            o.is_dga == is_dga,
            o.tier == model_tier(is_dga, high_confidence),
    {
        Outcome { tier: Tier::from_model(is_dga, high_confidence), is_dga, whitelisted: false }
    }
}

/// What screening against the lists found.
#[derive(Debug, Clone, Copy, PartialEq, Eq)]
pub enum Screening {
    /// On the whitelist: forwarded without asking the model.
    Whitelisted,
    /// On the blacklist: blocked without asking the model.
    Blacklisted,
    /// On neither list: the model decides.
    Unlisted,
}

/// The outcome that a list match decides, or `None` when the model decides.
pub open spec fn screened_outcome(s: Screening) -> Option<Outcome> {
    match s {
        Screening::Whitelisted => Some(
            Outcome { tier: Tier::Whitelisted, is_dga: false, whitelisted: true },
        ),
        Screening::Blacklisted => Some(
            Outcome { tier: Tier::Blacklisted, is_dga: true, whitelisted: false },
        ),
        Screening::Unlisted => None,
    }
}

impl Screening {
    /// The outcome that a list match decides, or `None` when the model
    /// decides.
    pub fn outcome(&self) -> (o: Option<Outcome>)
        ensures
            o == screened_outcome(*self),
            o is Some <==> *self != Screening::Unlisted,
            o matches Some(x) ==> (x.whitelisted <==> *self == Screening::Whitelisted),
            o matches Some(x) ==> (x.is_dga <==> *self == Screening::Blacklisted),
    {
        match self {
            Screening::Whitelisted => Some(
                Outcome { tier: Tier::Whitelisted, is_dga: false, whitelisted: true },
            ),
            Screening::Blacklisted => Some(
                Outcome { tier: Tier::Blacklisted, is_dga: true, whitelisted: false },
            ),
            Screening::Unlisted => None,
        }
    }
}

/// The lower-cased, trimmed, non-empty lines of a whitelist file, in order.
pub open spec fn whitelist_entries(lines: Seq<Seq<char>>) -> Seq<Seq<char>>
    decreases lines.len(),
{
    if lines.len() == 0 {
        Seq::empty()
    } else {
        let prev = whitelist_entries(lines.drop_last());
        let e = lowercase(trimmed(lines.last()));
        if e.len() > 0 {
            prev.push(e)
        } else {
            prev
        }
    }
}

/// The whitelist and the blacklist that the classifier screens queries
/// against before it asks the model.
pub struct DomainLists {
    whitelist: StringHashSet,
    blacklist: Blacklist,
}

impl View for DomainLists {
    /// The set of whitelist entries, and the blacklist's view.
    type V = (Set<Seq<char>>, (Set<Seq<char>>, Seq<Seq<char>>));

    closed spec fn view(&self) -> (Set<Seq<char>>, (Set<Seq<char>>, Seq<Seq<char>>)) {
        (self.whitelist@, self.blacklist@)
    }
}

/// What screening the normalized domain `d` against lists `v` finds: the
/// blacklist is consulted first, then the whitelist.
pub open spec fn screening_of(
    v: (Set<Seq<char>>, (Set<Seq<char>>, Seq<Seq<char>>)),
    d: Seq<char>,
) -> Screening {
    if listed(v.1, normalized(d)) {
        Screening::Blacklisted
    } else if v.0.contains(d) {
        Screening::Whitelisted
    } else {
        Screening::Unlisted
    }
}

/// The whitelist held by the text of a whitelist file: each line trimmed
/// and lower-cased, empty ones left out.
pub fn parse_whitelist(text: &str) -> (w: Vec<String>)
    ensures
        w.deep_view() == whitelist_entries(lines_of(text@)),
{
    let cs = chars_of(text);
    let lines = line_chars(&cs);
    let ghost ls = lines.deep_view();
    let mut out: Vec<String> = Vec::new();
    let mut k: usize = 0;
    while k < lines.len()
        invariant
            k <= lines.len(),
            ls == lines.deep_view(),
            ls == lines_of(text@),
            out.deep_view() == whitelist_entries(ls.take(k as int)),
        decreases lines.len() - k,
    {
        let line = &lines[k];
        let ghost lv = ls[k as int];
        assert(line@ =~= lv);
        assert(ls.take(k + 1).drop_last() == ls.take(k as int));
        assert(ls.take(k + 1).last() == lv);
        let (a, b) = trim_bounds(line);
        let entry = string_of(line, a, b);
        let low = to_lowercase(entry.as_str());
        if !low.as_str().is_empty() {
            let ghost before = out.deep_view();
            out.push(low);
            assert(out.deep_view() =~= before.push(low@));
        }
        k = k + 1;
    }
    assert(ls.take(lines.len() as int) == ls);
    out
}

impl DomainLists {
    /// The lists from the text of a whitelist file and a parsed blacklist.
    pub fn new(whitelist_text: &str, blacklist: Blacklist) -> (l: DomainLists)
        ensures
            l@.0 == whitelist_entries(lines_of(whitelist_text@)).to_set(),
            l@.1 == blacklist@,
    {
        DomainLists { whitelist: string_set(&parse_whitelist(whitelist_text)), blacklist }
    }

    /// The number of distinct whitelist entries.
    pub fn whitelist_count(&self) -> (n: usize)
        ensures
            n == self@.0.len(),
    {
        self.whitelist.len()
    }

    /// The blacklist.
    pub fn blacklist(&self) -> (b: &Blacklist)
        ensures
            b@ == self@.1,
    {
        &self.blacklist
    }

    /// Screens the normalized domain `domain_lower`: blacklisted when the
    /// blacklist holds it, else whitelisted when it is on the whitelist, else
    /// left to the model.
    pub fn screen(&self, domain_lower: &str) -> (s: Screening)
        ensures
            s == screening_of(self@, domain_lower@),
    {
        if self.blacklist.contains(domain_lower) {
            Screening::Blacklisted
        } else if self.whitelist.contains(domain_lower) {
            Screening::Whitelisted
        } else {
            Screening::Unlisted
        }
    }
}

// ---------------------------------------------------------------------------
// Laws
// ---------------------------------------------------------------------------

/// The model's tiers: high confidence exactly when it judges DGA and the
/// high-confidence mark is reached, suspicious for its other DGA judgements,
/// clean when it does not judge DGA.
pub proof fn law_model_tiers(is_dga: bool, high_confidence: bool)
    ensures
        (model_tier(is_dga, high_confidence) == Tier::HighConfidence) <==> (is_dga
            && high_confidence),
        (model_tier(is_dga, high_confidence) == Tier::Suspicious) <==> (is_dga
            && !high_confidence),
        (model_tier(is_dga, high_confidence) == Tier::Clean) <==> !is_dga,
{
}

/// The blacklist is consulted first: a domain that the blacklist holds is
/// blacklisted even when the whitelist holds it too.
pub proof fn law_blacklist_takes_precedence(
    v: (Set<Seq<char>>, (Set<Seq<char>>, Seq<Seq<char>>)),
    d: Seq<char>,
)
    requires
        listed(v.1, normalized(d)),
    ensures
        screening_of(v, d) == Screening::Blacklisted,
{
}

proof fn lemma_whitelist_entry_kept(lines: Seq<Seq<char>>, i: int)
    requires
        0 <= i < lines.len(),
        lowercase(trimmed(lines[i])).len() > 0,
    ensures
        whitelist_entries(lines).contains(lowercase(trimmed(lines[i]))),
    decreases lines.len(),
{
    let e = lowercase(trimmed(lines[i]));
    let prev = whitelist_entries(lines.drop_last());
    if i == lines.len() - 1 {
        assert(whitelist_entries(lines) == prev.push(e));
        assert(whitelist_entries(lines)[prev.len() as int] == e);
    } else {
        assert(lines.drop_last()[i] == lines[i]);
        lemma_whitelist_entry_kept(lines.drop_last(), i);
        let k = choose|k: int| 0 <= k < prev.len() && prev[k] == e;
        let last = lowercase(trimmed(lines.last()));
        if last.len() > 0 {
            assert(whitelist_entries(lines) == prev.push(last));
        } else {
            assert(whitelist_entries(lines) == prev);
        }
        assert(whitelist_entries(lines)[k] == e);
    }
}

/// Every line of a whitelist file that is not blank is whitelisted, in its
/// trimmed, lower-cased form, unless the blacklist holds it.
pub proof fn law_whitelist_lines_whitelisted(
    text: Seq<char>,
    i: int,
    b: (Set<Seq<char>>, Seq<Seq<char>>),
)
    requires
        0 <= i < lines_of(text).len(),
        lowercase(trimmed(lines_of(text)[i])).len() > 0,
        !listed(b, normalized(lowercase(trimmed(lines_of(text)[i])))),
    ensures
        screening_of(
            (whitelist_entries(lines_of(text)).to_set(), b),
            lowercase(trimmed(lines_of(text)[i])),
        ) == Screening::Whitelisted,
{
    lemma_whitelist_entry_kept(lines_of(text), i);
}

/// The flags of every outcome agree with its tier: it is whitelisted exactly
/// when the whitelist matched, and DGA exactly when it is blacklisted or the
/// model judged it DGA.  A domain the model judged is never reported as
/// whitelisted or blacklisted, and keeps the model's judgement.
pub proof fn law_outcome_flags_agree_with_tier(s: Screening, is_dga: bool, high_confidence: bool)
    ensures
        ({
            let o = model_outcome(is_dga, high_confidence);
            &&& !o.whitelisted
            &&& o.is_dga == is_dga
            &&& o.tier != Tier::Whitelisted
            &&& o.tier != Tier::Blacklisted
            &&& (o.is_dga <==> (o.tier == Tier::HighConfidence || o.tier == Tier::Suspicious))
        }),
        (screened_outcome(s) is Some) == (s != Screening::Unlisted),
        screened_outcome(s) matches Some(o) ==> {
            &&& o.whitelisted <==> s == Screening::Whitelisted
            &&& o.whitelisted <==> o.tier == Tier::Whitelisted
            &&& o.is_dga <==> s == Screening::Blacklisted
            &&& o.is_dga <==> o.tier == Tier::Blacklisted
        },
{
}

/// The printed labels are told apart, all have the same width, and each
/// is a bracketed name.
pub proof fn law_tier_labels(a: Tier, b: Tier)
    ensures
        tier_label(a).len() == 19,
        tier_label(a)[0] == '[',
        a != b ==> tier_label(a) != tier_label(b),
{
    reveal_strlit("[BLACKLISTED]      ");
    reveal_strlit("[DGA LIKELY]       ");
    reveal_strlit("[DGA SUSPECTED]    ");
    reveal_strlit("[WHITELISTED]      ");
    reveal_strlit("[CLEAN]            ");
    let la = tier_label(a);
    let lb = tier_label(b);
    if a != b && la == lb {
        assert(la[1] == lb[1] && la[5] == lb[5]);
        match a {
            Tier::Blacklisted => {},
            Tier::HighConfidence => {},
            Tier::Suspicious => {},
            Tier::Whitelisted => {},
            Tier::Clean => {},
        }
    }
}

proof fn lemma_whitelist_origin(lines: Seq<Seq<char>>)
    ensures
        forall|k: int|
            #![trigger whitelist_entries(lines)[k]]
            0 <= k < whitelist_entries(lines).len() ==> exists|i: int|
                0 <= i < lines.len() && whitelist_entries(lines)[k] == lowercase(
                    trimmed(#[trigger] lines[i]),
                ) && whitelist_entries(lines)[k].len() > 0,
    decreases lines.len(),
{
    if lines.len() > 0 {
        let prev = whitelist_entries(lines.drop_last());
        lemma_whitelist_origin(lines.drop_last());
        let e = lowercase(trimmed(lines.last()));
        assert forall|k: int|
            #![trigger whitelist_entries(lines)[k]]
            0 <= k < whitelist_entries(lines).len() implies exists|i: int|
                0 <= i < lines.len() && whitelist_entries(lines)[k] == lowercase(
                    trimmed(#[trigger] lines[i]),
                ) && whitelist_entries(lines)[k].len() > 0 by {
            if e.len() > 0 {
                assert(whitelist_entries(lines) == prev.push(e));
            } else {
                assert(whitelist_entries(lines) == prev);
            }
            if k < prev.len() {
                let i = choose|i: int|
                    0 <= i < lines.drop_last().len() && prev[k] == lowercase(
                        trimmed(#[trigger] lines.drop_last()[i]),
                    ) && prev[k].len() > 0;
                assert(lines[i] == lines.drop_last()[i]);
            } else {
                assert(lines[lines.len() - 1] == lines.last());
            }
        }
    }
}

/// The whitelist holds nothing but the lower-cased, trimmed text of its
/// file's lines, and no empty entry.
pub proof fn law_whitelist_holds_only_lines(text: Seq<char>, d: Seq<char>)
    requires
        whitelist_entries(lines_of(text)).to_set().contains(d),
    ensures
        d.len() > 0,
        exists|i: int|
            0 <= i < lines_of(text).len() && d == lowercase(trimmed(#[trigger] lines_of(text)[i])),
{
    let ls = lines_of(text);
    lemma_whitelist_origin(ls);
    let k = choose|k: int| 0 <= k < whitelist_entries(ls).len() && whitelist_entries(ls)[k] == d;
    assert(whitelist_entries(ls)[k] == d);
}

} // verus!
