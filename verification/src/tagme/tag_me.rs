//! Finding the mentions of a query and the pages each may mean.

use crate::ratio::{lemma_product_fits, Ratio};
use crate::surface_form::{matches_above, pairs, shares, SurfaceForm, SurfaceFormModel};
use crate::tagme::params::TagMeParams;
use crate::tagme::query_text::{ngrams_from, words, words_of, Query};
use crate::tagme::stopwords::{is_stop_word, is_stopword};
use crate::text::{chars_of, same_text, string_of, texts, views};
use vstd::prelude::*;

verus! {

/// What was found for an n-gram: its surface form in the store, if there is
/// one, and the number of documents that hold the n-gram as a phrase.
#[derive(Clone, Debug, PartialEq)]
pub struct Lookup {
    pub ngram: String,
    pub mention: Option<SurfaceForm>,
    pub mention_freq: u64,
}

/// A mention: an n-gram that may be a link, how probable that is, and the
/// pages it may mean, each with its commonness.
#[derive(Clone, Debug, PartialEq)]
pub struct Mention {
    pub text: String,
    pub link_probability: Ratio,
    pub entities: Vec<(String, Ratio)>,
}

/// What a `Mention` stands for.
pub struct MentionModel {
    pub text: Seq<char>,
    pub link_probability: Ratio,
    pub entities: Seq<(Seq<char>, Ratio)>,
}

impl View for Mention {
    type V = MentionModel;

    open spec fn view(&self) -> MentionModel {
        MentionModel {
            text: self.text@,
            link_probability: self.link_probability,
            entities: shares(self.entities@),
        }
    }
}

/// What a list of mentions stands for.
pub open spec fn mention_models(mentions: Seq<Mention>) -> Seq<MentionModel> {
    mentions.map_values(|m: Mention| m@)
}

/// The probability that a text with `occurrences` links is a link, where
/// `frequency` documents hold it: the share of the links in the greater of
/// the two numbers. It is one where no more documents hold the text than it
/// has links, also where none holds it.
pub open spec fn link_probability(occurrences: u64, frequency: u64) -> Ratio {
    if frequency > occurrences {
        Ratio { num: occurrences, den: frequency }
    } else {
        Ratio { num: occurrences, den: occurrences }
    }
}

/// The mention that an n-gram gives: none where the store has no surface
/// form for it, where the form has less than two links, or where its link
/// probability is below the threshold; else the pages whose commonness
/// reaches the threshold for candidates.
pub open spec fn mention_of(
    params: TagMeParams,
    ngram: Seq<char>,
    mention: Option<SurfaceFormModel>,
    frequency: u64,
) -> Option<MentionModel> {
    match mention {
        None => None,
        Some(sf) => {
            let p = link_probability(sf.wiki_occurrences, frequency);
            if sf.wiki_occurrences < 2 || p.less_than(params.link_probability_threshold) {
                None
            } else {
                Some(
                    MentionModel {
                        text: ngram,
                        link_probability: p,
                        entities: matches_above(
                            sf.anchors,
                            sf.wiki_occurrences,
                            params.candidate_mention_threshold,
                        ),
                    },
                )
            }
        },
    }
}

/// The mention that a lookup gives.
pub open spec fn mention_for(params: TagMeParams, lookup: Lookup) -> Option<MentionModel> {
    mention_of(
        params,
        lookup.ngram@,
        match lookup.mention {
            Some(sf) => Some(sf@),
            None => None,
        },
        lookup.mention_freq,
    )
}

/// One of the mentions has the text `text`.
pub open spec fn has_text(mentions: Seq<MentionModel>, text: Seq<char>) -> bool {
    exists|i: int| 0 <= i < mentions.len() && (#[trigger] mentions[i]).text == text
}

/// The mentions that the first `n` lookups give, in order; of two lookups
/// of the same n-gram the first counts.
pub open spec fn mentions_upto(params: TagMeParams, lookups: Seq<Lookup>, n: int) -> Seq<
    MentionModel,
>
    decreases n,
{
    if n <= 0 {
        Seq::empty()
    } else {
        let before = mentions_upto(params, lookups, n - 1);
        match mention_for(params, lookups[n - 1]) {
            Some(m) => if has_text(before, m.text) {
                before
            } else {
                before.push(m)
            },
            None => before,
        }
    }
}

/// Some word of the n-gram is no stop word.
pub open spec fn has_content(ngram: Seq<char>) -> bool {
    exists|i: int| 0 <= i < words(ngram).len() && !is_stop_word(#[trigger] words(ngram)[i])
}

/// The n-grams of `grams` up to the `n`th that hold a word that is no stop
/// word, in order.
pub open spec fn with_content(grams: Seq<Seq<char>>, n: int) -> Seq<Seq<char>>
    decreases n,
{
    if n <= 0 {
        Seq::empty()
    } else if has_content(grams[n - 1]) {
        with_content(grams, n - 1).push(grams[n - 1])
    } else {
        with_content(grams, n - 1)
    }
}

/// The least number of words of an n-gram: at least one.
pub open spec fn least_words(params: TagMeParams) -> int {
    if params.ngram_min == 0 {
        1
    } else {
        params.ngram_min as int
    }
}

/// `p / d` rounded to the nearest whole number, halves up.
pub open spec fn rounded(p: int, d: int) -> int {
    p / d + if 2 * (p % d) >= d {
        1int
    } else {
        0int
    }
}

/// How many bands of equal scores are kept of `n` candidates: the share
/// `k_th` of them, rounded, and at least one.
pub open spec fn band_limit(n: int, k_th: Ratio) -> int {
    let k = rounded(n * k_th.num, k_th.den as int);
    if k < 1 {
        1
    } else {
        k
    }
}

/// `sorted` with `x` put behind the last entry whose score is not below its
/// own.
pub open spec fn insert_desc(sorted: Seq<(Seq<char>, u64)>, x: (Seq<char>, u64)) -> Seq<
    (Seq<char>, u64),
>
    decreases sorted.len(),
{
    if sorted.len() == 0 || sorted.last().1 >= x.1 {
        sorted.push(x)
    } else {
        insert_desc(sorted.drop_last(), x).push(sorted.last())
    }
}

/// The entries by descending score; entries with the same score keep their
/// order.
pub open spec fn sort_desc(scores: Seq<(Seq<char>, u64)>) -> Seq<(Seq<char>, u64)>
    decreases scores.len(),
{
    if scores.len() == 0 {
        Seq::empty()
    } else {
        insert_desc(sort_desc(scores.drop_last()), scores.last())
    }
}

/// The number of bands of equal scores among the first `n` entries.
pub open spec fn bands_upto(sorted: Seq<(Seq<char>, u64)>, n: int) -> int
    decreases n,
{
    if n <= 0 {
        0
    } else if n == 1 {
        1
    } else {
        bands_upto(sorted, n - 1) + if sorted[n - 1].1 != sorted[n - 2].1 {
            1int
        } else {
            0int
        }
    }
}

/// How many entries are kept from `n` on: those of the first `k` bands.
pub open spec fn kept_len(sorted: Seq<(Seq<char>, u64)>, k: int, n: int) -> int
    decreases sorted.len() - n,
{
    if n < 0 || n >= sorted.len() || bands_upto(sorted, n + 1) > k {
        n
    } else {
        kept_len(sorted, k, n + 1)
    }
}

/// The names of the entries.
pub open spec fn names(entries: Seq<(Seq<char>, u64)>) -> Seq<Seq<char>> {
    entries.map_values(|e: (Seq<char>, u64)| e.0)
}

/// The names of the candidates in the first bands of their scores: the
/// candidates are taken by descending score, and a new band begins where the
/// score changes.
pub open spec fn top_k(scores: Seq<(Seq<char>, u64)>, k_th: Ratio) -> Seq<Seq<char>> {
    let sorted = sort_desc(scores);
    names(sorted.take(kept_len(sorted, band_limit(scores.len() as int, k_th), 0)))
}

/// Sorting keeps the number of entries.
pub proof fn lemma_sort_desc_len(scores: Seq<(Seq<char>, u64)>)
    ensures
        sort_desc(scores).len() == scores.len(),
    decreases scores.len(),
{
    if scores.len() > 0 {
        lemma_sort_desc_len(scores.drop_last());
        lemma_insert_desc_len(sort_desc(scores.drop_last()), scores.last());
    }
}

/// Putting an entry in adds one entry.
pub proof fn lemma_insert_desc_len(sorted: Seq<(Seq<char>, u64)>, x: (Seq<char>, u64))
    ensures
        insert_desc(sorted, x).len() == sorted.len() + 1,
    decreases sorted.len(),
{
    if sorted.len() == 0 || sorted.last().1 >= x.1 {
    } else {
        lemma_insert_desc_len(sorted.drop_last(), x);
    }
}

/// Where every score is at least `s`, so is every score after one more
/// entry with such a score is put in.
pub proof fn lemma_insert_desc_bound(sorted: Seq<(Seq<char>, u64)>, x: (Seq<char>, u64), s: u64)
    requires
        forall|i: int| 0 <= i < sorted.len() ==> (#[trigger] sorted[i]).1 >= s,
        x.1 >= s,
    ensures
        forall|i: int|
            0 <= i < insert_desc(sorted, x).len() ==> (#[trigger] insert_desc(sorted, x)[i]).1 >= s,
    decreases sorted.len(),
{
    if sorted.len() == 0 || sorted.last().1 >= x.1 {
    } else {
        let front = sorted.drop_last();
        assert forall|i: int| 0 <= i < front.len() implies (#[trigger] front[i]).1 >= s by {
            assert(front[i] == sorted[i]);
        }
        lemma_insert_desc_bound(front, x, s);
        lemma_insert_desc_len(front, x);
        let inner = insert_desc(front, x);
        let r = insert_desc(sorted, x);
        assert forall|i: int| 0 <= i < r.len() implies (#[trigger] r[i]).1 >= s by {
            if i < inner.len() {
                assert(r[i] == inner[i]);
            } else {
                assert(r[i] == sorted.last());
                assert(sorted[sorted.len() - 1].1 >= s);
            }
        }
    }
}

/// Entries whose scores do not rise, with one more put in, have scores that
/// do not rise.
pub proof fn lemma_insert_desc_sorted(sorted: Seq<(Seq<char>, u64)>, x: (Seq<char>, u64))
    requires
        is_descending(sorted),
    ensures
        is_descending(insert_desc(sorted, x)),
    decreases sorted.len(),
{
    let r = insert_desc(sorted, x);
    if sorted.len() == 0 || sorted.last().1 >= x.1 {
        assert forall|i: int, j: int| 0 <= i < j < r.len() implies r[i].1 >= r[j].1 by {
            if j == sorted.len() && i < sorted.len() - 1 {
                assert(sorted[i].1 >= sorted[sorted.len() - 1].1);
            }
        }
    } else {
        let front = sorted.drop_last();
        assert(is_descending(front)) by {
            assert forall|i: int, j: int| 0 <= i < j < front.len() implies front[i].1
                >= front[j].1 by {
                assert(front[i] == sorted[i] && front[j] == sorted[j]);
            }
        }
        lemma_insert_desc_sorted(front, x);
        lemma_insert_desc_len(front, x);
        let inner = insert_desc(front, x);
        let last = sorted.last().1;
        assert forall|i: int| 0 <= i < front.len() implies (#[trigger] front[i]).1 >= last by {
            assert(front[i] == sorted[i]);
            assert(sorted[i].1 >= sorted[sorted.len() - 1].1);
        }
        lemma_insert_desc_bound(front, x, last);
        assert forall|i: int, j: int| 0 <= i < j < r.len() implies r[i].1 >= r[j].1 by {
            if j < inner.len() {
                assert(r[i] == inner[i] && r[j] == inner[j]);
            } else {
                assert(r[i] == inner[i]);
                assert(inner[i].1 >= last);
            }
        }
    }
}

/// The scores of the entries do not rise.
pub open spec fn is_descending(entries: Seq<(Seq<char>, u64)>) -> bool {
    forall|i: int, j: int| 0 <= i < j < entries.len() ==> entries[i].1 >= entries[j].1
}

/// Sorted entries have scores that do not rise.
pub proof fn lemma_sort_desc_sorted(scores: Seq<(Seq<char>, u64)>)
    ensures
        is_descending(sort_desc(scores)),
    decreases scores.len(),
{
    if scores.len() > 0 {
        lemma_sort_desc_sorted(scores.drop_last());
        lemma_insert_desc_sorted(sort_desc(scores.drop_last()), scores.last());
    }
}

/// Runs a query: holds the thresholds.
#[derive(Clone, Copy, Debug, PartialEq, Eq)]
pub struct TagMe {
    pub params: TagMeParams,
}

impl TagMe {
    /// A run with the default thresholds.
    pub fn new() -> (t: TagMe)
        ensures
            t.params.wf(),
            t.params == (TagMeParams {
                link_probability_threshold: Ratio { num: 1, den: 1000 },
                candidate_mention_threshold: Ratio { num: 2, den: 100 },
                k_th: Ratio { num: 3, den: 10 },
                ngram_max: 6,
                ngram_min: 2,
            }),
    {
        TagMe::with_params(TagMeParams::default())
    }

    /// A run with the given thresholds.
    pub fn with_params(params: TagMeParams) -> (t: TagMe)
        ensures
            t.params == params,
    {
        TagMe { params }
    }

    /// Sets the thresholds.
    pub fn set_params(&mut self, params: TagMeParams)
        ensures
            final(self).params == params,
    {
        self.params = params;
    }

    /// The probability that a surface form is a link, where `mention_freq`
    /// documents hold its text as a phrase.
    pub fn get_link_probability(&self, mention: &SurfaceForm, mention_freq: u64) -> (p: Ratio)
        ensures
            p == link_probability(mention.wiki_occurrences, mention_freq),
    {
        let occurrences = mention.wiki_occurrences;
        if mention_freq > occurrences {
            Ratio::new(occurrences, mention_freq)
        } else {
            Ratio::new(occurrences, occurrences)
        }
    }

    /// Whether some word of the n-gram is no stop word.
    pub fn has_content_word(ngram: &str) -> (b: bool)
        ensures
            b == has_content(ngram@),
    {
        let list = words_of(&chars_of(ngram));
        let mut i: usize = 0;
        while i < list.len()
            invariant
                i <= list.len(),
                views(list@) == words(ngram@),
                forall|j: int| 0 <= j < i ==> is_stop_word(#[trigger] words(ngram@)[j]),
            decreases list.len() - i,
        {
            assert(views(list@)[i as int] == list@[i as int]@);
            if !is_stopword(string_of(&list[i]).as_str()) {
                return true;
            }
            i += 1;
        }
        false
    }

    /// The n-grams of the query that are looked up: those of the least to
    /// the greatest number of words that hold a word that is no stop word.
    pub fn candidate_phrases(&self, query: &Query) -> (r: Vec<String>)
        ensures
            texts(r@) == ({
                let grams = ngrams_from(
                    views(query.words@),
                    least_words(self.params),
                    self.params.ngram_max as int,
                );
                with_content(grams, grams.len() as int)
            }),
    {
        let min = if self.params.ngram_min == 0 {
            1
        } else {
            self.params.ngram_min
        };
        let grams = query.split_ngrams(min, self.params.ngram_max);
        let ghost all = texts(grams@);
        let mut out: Vec<String> = Vec::new();
        let mut i: usize = 0;
        assert(texts(out@) =~= Seq::empty());
        while i < grams.len()
            invariant
                i <= grams.len(),
                all == texts(grams@),
                texts(out@) == with_content(all, i as int),
            decreases grams.len() - i,
        {
            assert(all[i as int] == grams@[i as int]@);
            if TagMe::has_content_word(grams[i].as_str()) {
                let ghost before = out@;
                out.push(grams[i].clone());
                assert(texts(out@) =~= texts(
                    before,
                ).push(grams@[i as int]@));
            }
            i += 1;
        }
        out
    }

    /// The mention that a lookup gives, if it gives one.
    pub fn mention_from(&self, lookup: &Lookup) -> (r: Option<Mention>)
        requires
            self.params.wf(),
        ensures
            match mention_for(self.params, *lookup) {
                Some(m) => r matches Some(found) && found@ == m,
                None => r is None,
            },
    {
        match &lookup.mention {
            None => None,
            Some(sf) => {
                if sf.wiki_occurrences < 2 {
                    return None;
                }
                let p = self.get_link_probability(sf, lookup.mention_freq);
                if p.lt(&self.params.link_probability_threshold) {
                    return None;
                }
                Some(
                    Mention {
                        text: lookup.ngram.clone(),
                        link_probability: p,
                        entities: sf.get_wiki_matches(self.params.candidate_mention_threshold),
                    },
                )
            },
        }
    }

    /// The mentions of a query with their candidate pages, from what was
    /// looked up for its n-grams.
    pub fn entities_for_query(&self, lookups: &Vec<Lookup>) -> (r: Vec<Mention>)
        requires
            self.params.wf(),
        ensures
            mention_models(r@) == mentions_upto(self.params, lookups@, lookups@.len() as int),
    {
        let mut out: Vec<Mention> = Vec::new();
        let mut i: usize = 0;
        assert(mention_models(out@) =~= Seq::empty());
        while i < lookups.len()
            invariant
                i <= lookups.len(),
                self.params.wf(),
                mention_models(out@) == mentions_upto(self.params, lookups@, i as int),
            decreases lookups.len() - i,
        {
            match self.mention_from(&lookups[i]) {
                Some(m) => {
                    if !TagMe::holds_text(&out, m.text.as_str()) {
                        let ghost before = out@;
                        out.push(m);
                        assert(mention_models(out@) =~= mention_models(before).push(m@));
                    }
                },
                None => {},
            }
            i += 1;
        }
        out
    }

    /// Whether one of the mentions has the text `text`.
    pub fn holds_text(mentions: &Vec<Mention>, text: &str) -> (b: bool)
        ensures
            b == has_text(mention_models(mentions@), text@),
    {
        let mut i: usize = 0;
        while i < mentions.len()
            invariant
                i <= mentions.len(),
                forall|j: int| 0 <= j < i ==> (#[trigger] mention_models(mentions@)[j]).text != text@,
            decreases mentions.len() - i,
        {
            assert(mention_models(mentions@)[i as int].text == mentions@[i as int].text@);
            if same_text(mentions[i].text.as_str(), text) {
                return true;
            }
            i += 1;
        }
        false
    }

    /// The candidates by descending score; candidates with the same score
    /// keep their order.
    pub fn sorted_by_score(mention_scores: &Vec<(String, u64)>) -> (r: Vec<(String, u64)>)
        ensures
            pairs(r@) == sort_desc(pairs(mention_scores@)),
    {
        let ghost all = pairs(mention_scores@);
        let mut out: Vec<(String, u64)> = Vec::new();
        let mut i: usize = 0;
        assert(all.take(0) =~= Seq::<(Seq<char>, u64)>::empty());
        assert(pairs(out@) =~= Seq::empty());
        while i < mention_scores.len()
            invariant
                i <= mention_scores.len(),
                all == pairs(mention_scores@),
                pairs(out@) == sort_desc(all.take(i as int)),
            decreases mention_scores.len() - i,
        {
            let score = mention_scores[i].1;
            let ghost x = all[i as int];
            let ghost sorted = pairs(out@);
            let mut at: usize = out.len();
            assert(sorted.take(at as int) =~= sorted);
            assert(sorted.skip(at as int) =~= Seq::<(Seq<char>, u64)>::empty());
            assert(insert_desc(sorted, x) =~= insert_desc(sorted.take(at as int), x) + sorted.skip(
                at as int,
            ));
            while at > 0 && out[at - 1].1 < score
                invariant
                    at <= out.len(),
                    sorted == pairs(out@),
                    x.1 == score,
                    insert_desc(sorted, x) == insert_desc(sorted.take(at as int), x) + sorted.skip(
                        at as int,
                    ),
                decreases at,
            {
                proof {
                    let t = sorted.take(at as int);
                    assert(t.last() == sorted[at - 1]);
                    assert(t.drop_last() =~= sorted.take(at - 1));
                    assert(insert_desc(t, x) == insert_desc(sorted.take(at - 1), x).push(
                        sorted[at - 1],
                    ));
                    assert(insert_desc(sorted.take(at - 1), x).push(sorted[at - 1]) + sorted.skip(
                        at as int,
                    ) =~= insert_desc(sorted.take(at - 1), x) + sorted.skip(at - 1));
                }
                at -= 1;
            }
            proof {
                let t = sorted.take(at as int);
                if at > 0 {
                    assert(t.last() == sorted[at - 1]);
                }
                assert(insert_desc(t, x) == t.push(x));
                assert(t.push(x) + sorted.skip(at as int) =~= sorted.insert(at as int, x));
                assert(all.take(i + 1).drop_last() =~= all.take(i as int));
                assert(all.take(i + 1).last() == x);
            }
            let ghost before = out@;
            out.insert(at, (mention_scores[i].0.clone(), score));
            assert(pairs(out@) =~= sorted.insert(at as int, x));
            i += 1;
        }
        assert(all.take(mention_scores@.len() as int) =~= all);
        out
    }

    /// How many bands of equal scores are kept of `n` candidates.
    pub fn band_limit_of(&self, n: usize) -> (k: u128)
        requires
            self.params.k_th.den > 0,
        ensures
            k == band_limit(n as int, self.params.k_th),
    {
        let num = self.params.k_th.num;
        let den = self.params.k_th.den as u128;
        proof {
            lemma_product_fits(n as u64, num);
        }
        let product: u128 = (n as u128) * (num as u128);
        let whole: u128 = product / den;
        let rest: u128 = product % den;
        assert(whole <= product) by (nonlinear_arith)
            requires
                whole == product / den,
                den >= 1,
                product >= 0,
        ;
        proof {
            assert(product <= 0xffff_ffff_ffff_ffff * 0xffff_ffff_ffff_ffff) by (nonlinear_arith)
                requires
                    product == n * num,
                    0 <= n <= 0xffff_ffff_ffff_ffff,
                    0 <= num <= 0xffff_ffff_ffff_ffff,
            ;
        }
        let k: u128 = if 2 * rest >= den {
            whole + 1
        } else {
            whole
        };
        if k < 1 {
            1
        } else {
            k
        }
    }

    /// The names of the candidates in the first bands of their scores.
    pub fn get_top_k(&self, mention_scores: &Vec<(String, u64)>) -> (r: Vec<String>)
        requires
            self.params.k_th.den > 0,
        ensures
            texts(r@) == top_k(pairs(mention_scores@), self.params.k_th),
    {
        let sorted = TagMe::sorted_by_score(mention_scores);
        let k = self.band_limit_of(mention_scores.len());
        let ghost s = pairs(sorted@);
        proof {
            lemma_sort_desc_len(pairs(mention_scores@));
        }
        let mut out: Vec<String> = Vec::new();
        let mut bands: u128 = 0;
        let mut i: usize = 0;
        assert(sorted@.len() == 0 ==> kept_len(s, k as int, 0) == 0);
        while i < sorted.len()
            invariant_except_break
                bands == bands_upto(s, i as int),
                bands <= i,
                kept_len(s, k as int, 0) == kept_len(s, k as int, i as int),
                i == sorted@.len() ==> kept_len(s, k as int, i as int) == i,
            invariant
                i <= sorted.len(),
                s == pairs(sorted@),
                out@.len() == i,
                forall|j: int| 0 <= j < i ==> (#[trigger] out@[j])@ == s[j].0,
            ensures
                kept_len(s, k as int, 0) == i,
            decreases sorted.len() - i,
        {
            let next: u128 = if i == 0 || sorted[i].1 != sorted[i - 1].1 {
                bands + 1
            } else {
                bands
            };
            assert(next == bands_upto(s, i + 1)) by {
                assert(s[i as int].1 == sorted@[i as int].1);
                if i > 0 {
                    assert(s[i - 1].1 == sorted@[i - 1].1);
                }
            }
            if next > k {
                assert(kept_len(s, k as int, i as int) == i);
                break ;
            }
            bands = next;
            out.push(sorted[i].0.clone());
            i += 1;
            assert(i == sorted@.len() ==> kept_len(s, k as int, i as int) == i);
        }
        proof {
            assert(texts(out@) =~= names(s.take(i as int)));
        }
        out
    }
}

} // verus!
