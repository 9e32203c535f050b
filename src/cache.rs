//! The two cache tiers: verdicts by fingerprint, and confidences by learned keyword.
use vstd::prelude::*;
use crate::model::AnalyzeResponse;
use crate::response::same_text;

verus! {

// ---------------------------------------------------------------------------
// Verdicts by fingerprint
// ---------------------------------------------------------------------------

/// The map that a list of entries stands for; of two entries for a key, the later one counts.
pub open spec fn table_map(es: Seq<(String, AnalyzeResponse)>) -> Map<Seq<char>, AnalyzeResponse>
    decreases es.len(),
{
    if es.len() == 0 {
        Map::empty()
    } else {
        table_map(es.drop_last()).insert(es.last().0@, es.last().1)
    }
}

/// Verdicts by fingerprint. Entries are never removed; `put` replaces the entry of a fingerprint
/// that has one.
pub struct ResultCache {
    entries: Vec<(String, AnalyzeResponse)>,
}

impl View for ResultCache {
    type V = Map<Seq<char>, AnalyzeResponse>;

    closed spec fn view(&self) -> Map<Seq<char>, AnalyzeResponse> {
        table_map(self.entries@)
    }
}

proof fn lemma_table_suffix(es: Seq<(String, AnalyzeResponse)>, k: Seq<char>, i: int)
    requires
        0 <= i <= es.len(),
        forall|j: int| i <= j < es.len() ==> (#[trigger] es[j]).0@ != k,
    ensures
        table_map(es).contains_key(k) == table_map(es.take(i)).contains_key(k),
        table_map(es).contains_key(k) ==> table_map(es)[k] == table_map(es.take(i))[k],
    decreases es.len(),
{
    if es.len() > i {
        assert(es.drop_last().take(i) =~= es.take(i));
        assert(es[es.len() - 1].0@ != k);
        lemma_table_suffix(es.drop_last(), k, i);
    } else {
        assert(es.take(i) =~= es);
    }
}

impl ResultCache {
    pub fn new() -> (r: ResultCache)
        ensures
            r@ == Map::<Seq<char>, AnalyzeResponse>::empty(),
    {
        ResultCache { entries: Vec::new() }
    }

    /// The verdict cached for a fingerprint.
    pub fn lookup_by_fingerprint(&self, fingerprint: &str) -> (r: Option<&AnalyzeResponse>)
        ensures
            match r {
                Some(v) => self@.contains_key(fingerprint@) && self@[fingerprint@] == *v,
                None => !self@.contains_key(fingerprint@),
            },
    {
        let mut i: usize = self.entries.len();
        while i > 0
            invariant
                i <= self.entries.len(),
                forall|j: int| i <= j < self.entries@.len() ==> (#[trigger] self.entries@[j]).0@
                    != fingerprint@,
            decreases i,
        {
            let e = &self.entries[i - 1];
            if same_text(e.0.as_str(), fingerprint) {
                proof {
                    lemma_table_suffix(self.entries@, fingerprint@, i as int);
                    assert(self.entries@.take(i as int).drop_last() =~= self.entries@.take(
                        i - 1,
                    ));
                }
                return Some(&e.1);
            }
            i -= 1;
        }
        proof {
            lemma_table_suffix(self.entries@, fingerprint@, 0);
        }
        None
    }

    /// Cache a verdict for a fingerprint, replacing the one cached for it before.
    pub fn put(&mut self, fingerprint: String, result: AnalyzeResponse)
        ensures
            final(self)@ == old(self)@.insert(fingerprint@, result),
    {
        let mut i: usize = self.entries.len();
        while i > 0 && !same_text(self.entries[i - 1].0.as_str(), fingerprint.as_str())
            invariant
                i <= self.entries.len(),
                self.entries@ == old(self).entries@,
                forall|j: int| i <= j < self.entries@.len() ==> (#[trigger] self.entries@[j]).0@
                    != fingerprint@,
            decreases i,
        {
            i -= 1;
        }
        if i > 0 {
            proof {
                lemma_table_overwrite(self.entries@, i - 1, (fingerprint, result));
            }
            self.entries.set(i - 1, (fingerprint, result));
        } else {
            self.entries.push((fingerprint, result));
            proof {
                assert(self.entries@.drop_last() =~= old(self).entries@);
            }
        }
    }
}

proof fn lemma_table_overwrite(
    es: Seq<(String, AnalyzeResponse)>,
    j: int,
    x: (String, AnalyzeResponse),
)
    requires
        0 <= j < es.len(),
        es[j].0@ == x.0@,
        forall|i: int| j < i < es.len() ==> (#[trigger] es[i]).0@ != x.0@,
    ensures
        table_map(es.update(j, x)) == table_map(es).insert(x.0@, x.1),
    decreases es.len(),
{
    let u = es.update(j, x);
    if j == es.len() - 1 {
        assert(u.drop_last() =~= es.drop_last());
        assert(table_map(u) =~= table_map(es).insert(x.0@, x.1));
    } else {
        assert(u.drop_last() =~= es.drop_last().update(j, x));
        assert(es[es.len() - 1].0@ != x.0@);
        lemma_table_overwrite(es.drop_last(), j, x);
        assert(table_map(u) =~= table_map(es).insert(x.0@, x.1));
    }
}

// ---------------------------------------------------------------------------
// Confidences by keyword
// ---------------------------------------------------------------------------

/// The index of the first entry for `k`, or the length when there is none.
pub open spec fn key_index(es: Seq<(Seq<char>, Seq<char>)>, k: Seq<char>) -> int
    decreases es.len(),
{
    if es.len() == 0 {
        0
    } else if es[0].0 == k {
        0
    } else {
        1 + key_index(es.drop_first(), k)
    }
}

/// The entries after recording confidence `c` for keyword `k`: an entry for `k` is overwritten
/// in place, else a new one goes last.
pub open spec fn recorded(es: Seq<(Seq<char>, Seq<char>)>, k: Seq<char>, c: Seq<char>) -> Seq<
    (Seq<char>, Seq<char>),
> {
    let i = key_index(es, k);
    if i < es.len() {
        es.update(i, (k, c))
    } else {
        es.push((k, c))
    }
}

/// Whether `needle` occurs in `hay` as a contiguous piece.
pub open spec fn is_substring(needle: Seq<char>, hay: Seq<char>) -> bool {
    exists|i: int| 0 <= i && i + needle.len() <= hay.len() && #[trigger] hay.subrange(i, i + needle.len()) == needle
}

/// The upper-case form of a text, as `str::to_uppercase` computes it.
pub uninterp spec fn upper_of(s: Seq<char>) -> Seq<char>;

/// The first entry, in the order of recording, whose keyword in upper case occurs in `text`.
pub open spec fn keyword_hit(es: Seq<(Seq<char>, Seq<char>)>, text: Seq<char>) -> Option<
    (Seq<char>, Seq<char>),
>
    decreases es.len(),
{
    if es.len() == 0 {
        None
    } else if is_substring(upper_of(es[0].0), text) {
        Some(es[0])
    } else {
        keyword_hit(es.drop_first(), text)
    }
}

/// Relies on `str::to_uppercase`: the result depends on the characters alone.
#[verifier::external_body]
fn uppercase(s: &str) -> (r: String)
    ensures
        r@ == upper_of(s@),
{
    s.to_uppercase()
}

/// Whether `needle` occurs in `hay`.
pub fn contains_text(hay: &str, needle: &str) -> (r: bool)
    ensures
        r == is_substring(needle@, hay@),
{
    let h = crate::normalize::chars_of(hay);
    let n = crate::normalize::chars_of(needle);
    if n.len() > h.len() {
        return false;
    }
    let mut i: usize = 0;
    while i <= h.len() - n.len()
        invariant
            h@ == hay@,
            n@ == needle@,
            n.len() <= h.len(),
            i <= h.len() - n.len() + 1,
            forall|j: int| 0 <= j < i ==> #[trigger] h@.subrange(j, j + n@.len()) != n@,
        decreases h.len() - i,
    {
        let mut p: usize = 0;
        while p < n.len() && h[i + p] == n[p]
            invariant
                i + n.len() <= h.len(),
                p <= n.len(),
                forall|q: int| 0 <= q < p ==> h@[i + q] == n@[q],
            decreases n.len() - p,
        {
            p += 1;
        }
        if p == n.len() {
            assert(h@.subrange(i as int, i + n@.len()) =~= n@);
            return true;
        }
        assert(h@.subrange(i as int, i + n@.len())[p as int] != n@[p as int]);
        i += 1;
    }
    assert forall|j: int| 0 <= j && j + needle@.len() <= hay@.len() implies #[trigger] hay@.subrange(
        j,
        j + needle@.len(),
    ) != needle@ by {
        assert(j < i);
    }
    false
}

/// Confidences learned for keywords, in the order in which the keywords were first recorded.
/// A scan reports the earliest recorded keyword that matches.
pub struct KeywordIndex {
    entries: Vec<(String, String)>,
}

impl View for KeywordIndex {
    type V = Seq<(Seq<char>, Seq<char>)>;

    closed spec fn view(&self) -> Seq<(Seq<char>, Seq<char>)> {
        self.entries@.map_values(|e: (String, String)| (e.0@, e.1@))
    }
}

impl KeywordIndex {
    pub fn new() -> (r: KeywordIndex)
        ensures
            r@ == Seq::<(Seq<char>, Seq<char>)>::empty(),
    {
        let r = KeywordIndex { entries: Vec::new() };
        assert(r@ =~= Seq::<(Seq<char>, Seq<char>)>::empty());
        r
    }

    /// The first recorded keyword that, in upper case, occurs in `text`, with its confidence.
    pub fn scan(&self, text: &str) -> (r: Option<(String, String)>)
        ensures
            match r {
                Some(kc) => keyword_hit(self@, text@) == Some((kc.0@, kc.1@)),
                None => keyword_hit(self@, text@) is None,
            },
    {
        let mut i: usize = 0;
        assert(self@.skip(0) =~= self@);
        while i < self.entries.len()
            invariant
                i <= self.entries.len(),
                self@.len() == self.entries.len(),
                keyword_hit(self@, text@) == keyword_hit(self@.skip(i as int), text@),
            decreases self.entries.len() - i,
        {
            let e = &self.entries[i];
            let upper = uppercase(e.0.as_str());
            assert(self@.skip(i as int).drop_first() =~= self@.skip(i + 1));
            assert(self@.skip(i as int)[0] == (e.0@, e.1@));
            if contains_text(text, upper.as_str()) {
                return Some((e.0.clone(), e.1.clone()));
            }
            i += 1;
        }
        None
    }

    /// Record the confidence for a keyword, overwriting an earlier one.
    pub fn record(&mut self, keyword: String, confidence: String)
        ensures
            final(self)@ == recorded(old(self)@, keyword@, confidence@),
    {
        let ghost es = self@;
        let mut i: usize = 0;
        while i < self.entries.len() && !same_text(self.entries[i].0.as_str(), keyword.as_str())
            invariant
                i <= self.entries.len(),
                es == self@,
                es.len() == self.entries.len(),
                forall|j: int| 0 <= j < i ==> (#[trigger] es[j]).0 != keyword@,
            decreases self.entries.len() - i,
        {
            i += 1;
        }
        proof {
            lemma_key_index(es, keyword@, i as int);
        }
        if i < self.entries.len() {
            self.entries.set(i, (keyword, confidence));
            assert(self@ =~= es.update(i as int, (keyword@, confidence@)));
        } else {
            self.entries.push((keyword, confidence));
            assert(self@ =~= es.push((keyword@, confidence@)));
        }
    }
}

proof fn lemma_key_index(es: Seq<(Seq<char>, Seq<char>)>, k: Seq<char>, i: int)
    requires
        0 <= i <= es.len(),
        forall|j: int| 0 <= j < i ==> (#[trigger] es[j]).0 != k,
        i == es.len() || es[i].0 == k,
    ensures
        key_index(es, k) == i,
    decreases i,
{
    if i > 0 {
        let t = es.drop_first();
        assert forall|j: int| 0 <= j < i - 1 implies (#[trigger] t[j]).0 != k by {
            assert(t[j] == es[j + 1]);
        }
        assert(es[0].0 != k);
        lemma_key_index(t, k, i - 1);
    }
}

} // verus!
