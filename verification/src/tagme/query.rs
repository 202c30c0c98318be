//! A query on its way: the mentions that survive, the pairs of pages whose
//! relatedness is asked for, and the page that is picked for a mention.

use crate::order::key_lt;
use crate::ratio::Ratio;
use crate::sorting::sort_by_key;
use crate::surface_form::{pairs, shares};
use crate::tagme::query_text::Query;
use crate::tagme::tag_me::{mention_models, Mention, MentionModel};
use crate::text::{
    chars_of, contains, has_infix, replace_char, replaced, same_text, string_of, texts,
};
use vstd::prelude::*;
use vstd::string::*;

verus! {

/// The number of words of a mention: one more than it has spaces.
pub open spec fn word_count(text: Seq<char>) -> nat
    decreases text.len(),
{
    if text.len() == 0 {
        1
    } else {
        word_count(text.drop_last()) + if text.last() == ' ' {
            1nat
        } else {
            0nat
        }
    }
}

/// The `j`th mention is longer than the `i`th: it has more words, and so
/// comes behind it when the mentions are put in the order of their numbers
/// of words.
pub open spec fn later(ms: Seq<MentionModel>, i: int, j: int) -> bool {
    &&& 0 <= i < ms.len()
    &&& 0 <= j < ms.len()
    &&& word_count(ms[j].text) > word_count(ms[i].text)
}

/// The `j`th mention is longer than the `i`th, holds its text, and is more
/// probably a link.
pub open spec fn shadows(ms: Seq<MentionModel>, i: int, j: int) -> bool {
    &&& later(ms, i, j)
    &&& contains(ms[j].text, ms[i].text)
    &&& ms[i].link_probability.less_than(ms[j].link_probability)
}

/// The `i`th mention is dropped: some mention shadows it.
pub open spec fn is_dropped(ms: Seq<MentionModel>, i: int) -> bool {
    exists|j: int| shadows(ms, i, j)
}

/// The positions among the first `n` of the mentions that are not dropped,
/// in order.
pub open spec fn kept_upto(ms: Seq<MentionModel>, n: int) -> Seq<int>
    decreases n,
{
    if n <= 0 {
        Seq::empty()
    } else if is_dropped(ms, n - 1) {
        kept_upto(ms, n - 1)
    } else {
        kept_upto(ms, n - 1).push(n - 1)
    }
}

/// The mentions at the given positions.
pub open spec fn picked(ms: Seq<MentionModel>, at: Seq<int>) -> Seq<MentionModel> {
    at.map_values(|k: int| ms[k])
}

/// The mentions that are not dropped, in their order.
pub open spec fn pruned(ms: Seq<MentionModel>) -> Seq<MentionModel> {
    picked(ms, kept_upto(ms, ms.len() as int))
}

/// The positions that are kept rise, lie among the first `n`, and are those
/// of mentions that are not dropped.
pub proof fn lemma_kept_upto(ms: Seq<MentionModel>, n: int)
    requires
        0 <= n <= ms.len(),
    ensures
        forall|a: int|
            0 <= a < kept_upto(ms, n).len() ==> 0 <= (#[trigger] kept_upto(ms, n)[a]) < n
                && !is_dropped(ms, kept_upto(ms, n)[a]),
        forall|a: int, b: int|
            0 <= a < b < kept_upto(ms, n).len() ==> kept_upto(ms, n)[a] < kept_upto(ms, n)[b],
    decreases n,
{
    if n > 0 {
        lemma_kept_upto(ms, n - 1);
        let prev = kept_upto(ms, n - 1);
        let cur = kept_upto(ms, n);
        assert forall|a: int| 0 <= a < cur.len() implies 0 <= (#[trigger] cur[a]) < n
            && !is_dropped(ms, cur[a]) by {
            if a < prev.len() {
                assert(cur[a] == prev[a]);
            }
        }
        assert forall|a: int, b: int| 0 <= a < b < cur.len() implies cur[a] < cur[b] by {
            assert(cur[a] == prev[a]);
            if b < prev.len() {
                assert(cur[b] == prev[b]);
            }
        }
    }
}

/// Where nothing is dropped, every position is kept.
pub proof fn lemma_all_kept(ms: Seq<MentionModel>, n: int)
    requires
        0 <= n <= ms.len(),
        forall|i: int| 0 <= i < ms.len() ==> !is_dropped(ms, i),
    ensures
        kept_upto(ms, n) == Seq::new(n as nat, |k: int| k),
    decreases n,
{
    if n > 0 {
        lemma_all_kept(ms, n - 1);
        assert(kept_upto(ms, n) =~= Seq::new(n as nat, |k: int| k));
    } else {
        assert(kept_upto(ms, n) =~= Seq::new(n as nat, |k: int| k));
    }
}

/// Dropping the shadowed mentions a second time changes nothing: among the
/// mentions that are left none shadows another.
pub proof fn lemma_prune_idempotent(ms: Seq<MentionModel>)
    ensures
        pruned(pruned(ms)) == pruned(ms),
{
    let at = kept_upto(ms, ms.len() as int);
    let t = pruned(ms);
    lemma_kept_upto(ms, ms.len() as int);
    assert forall|a: int| 0 <= a < t.len() implies !is_dropped(t, a) by {
        if is_dropped(t, a) {
            let b = choose|b: int| shadows(t, a, b);
            assert(t[a] == ms[at[a]]);
            assert(t[b] == ms[at[b]]);
            if b > a {
                assert(at[a] < at[b]);
            }
            if b < a {
                assert(at[b] < at[a]);
            }
            assert(shadows(ms, at[a], at[b]));
            assert(is_dropped(ms, at[a]));
        }
    }
    lemma_all_kept(t, t.len() as int);
    assert(picked(t, kept_upto(t, t.len() as int)) =~= t);
}

/// The entry with the greatest share among the first `n`; of entries with
/// the same share the last. None has a share below zero, so there is one
/// wherever there is an entry.
pub open spec fn best_upto(top: Seq<(Seq<char>, Ratio)>, n: int) -> Option<(Seq<char>, Ratio)>
    decreases n,
{
    if n <= 0 {
        None
    } else {
        match best_upto(top, n - 1) {
            Some(best) => if top[n - 1].1.at_least(best.1) {
                Some(top[n - 1])
            } else {
                Some(best)
            },
            None => if top[n - 1].1.at_least(Ratio { num: 0, den: 1 }) {
                Some(top[n - 1])
            } else {
                None
            },
        }
    }
}

/// The name given where no page can be picked.
pub open spec fn no_entity() -> Seq<char> {
    "[-ERROR-]"@
}

/// The page picked from the candidates.
pub open spec fn best_entity(top: Seq<(Seq<char>, Ratio)>) -> Seq<char> {
    match best_upto(top, top.len() as int) {
        Some(best) => best.0,
        None => no_entity(),
    }
}

/// The name of a page as the index knows it: with `_` for each space.
pub open spec fn underscored(name: Seq<char>) -> Seq<char> {
    replace_char(name, ' ', '_')
}

/// The names among the first `n`, each once, as the index knows them, in
/// the order in which they first occur.
pub open spec fn distinct_upto(names: Seq<Seq<char>>, n: int) -> Seq<Seq<char>>
    decreases n,
{
    if n <= 0 {
        Seq::empty()
    } else {
        let before = distinct_upto(names, n - 1);
        if before.contains(underscored(names[n - 1])) {
            before
        } else {
            before.push(underscored(names[n - 1]))
        }
    }
}

/// The pairs of the names at positions `i < j`, from the pair at `(i, j)`
/// on: first all pairs of the first name, then all of the second, and so on.
pub open spec fn pairs_from(names: Seq<Seq<char>>, i: int, j: int) -> Seq<(Seq<char>, Seq<char>)>
    decreases names.len() - i, names.len() - j,
{
    if i < 0 || j <= i || i + 1 >= names.len() {
        Seq::empty()
    } else if j >= names.len() {
        pairs_from(names, i + 1, i + 2)
    } else {
        seq![(names[i], names[j])] + pairs_from(names, i, j + 1)
    }
}

/// All pairs of different names of a list.
pub open spec fn all_pairs(names: Seq<Seq<char>>) -> Seq<(Seq<char>, Seq<char>)> {
    pairs_from(names, 0, 1)
}

/// The texts of a list of pairs of strings.
pub open spec fn pair_texts(list: Seq<(String, String)>) -> Seq<(Seq<char>, Seq<char>)> {
    list.map_values(|p: (String, String)| (p.0@, p.1@))
}

/// The names are in the order of their keys, and none stands twice.
pub open spec fn is_ordered_set(names: Seq<Seq<char>>) -> bool {
    &&& forall|i: int, j: int| 0 <= i < j < names.len() ==> !key_lt(names[j], names[i])
    &&& forall|i: int, j: int| 0 <= i < j < names.len() ==> names[i] != names[j]
}

/// The number of words of a mention.
pub fn count_words(text: &str) -> (n: u128)
    ensures
        n == word_count(text@),
{
    let chars = chars_of(text);
    let mut n: u128 = 1;
    let mut i: usize = 0;
    assert(chars@.take(0) =~= Seq::<char>::empty());
    while i < chars.len()
        invariant
            i <= chars.len(),
            n == word_count(chars@.take(i as int)),
            n <= i + 1,
        decreases chars.len() - i,
    {
        assert(chars@.take(i + 1).drop_last() =~= chars@.take(i as int));
        assert(chars@.take(i + 1).last() == chars@[i as int]);
        if chars[i] == ' ' {
            n += 1;
        }
        i += 1;
    }
    assert(chars@.take(chars.len() as int) =~= chars@);
    n
}

/// A mention with the same text, probability and pages.
fn copy_of(m: &Mention) -> (r: Mention)
    ensures
        r@ == m@,
{
    let mut entities: Vec<(String, Ratio)> = Vec::new();
    let mut i: usize = 0;
    while i < m.entities.len()
        invariant
            i <= m.entities.len(),
            entities@.len() == i,
            forall|j: int|
                0 <= j < i ==> (#[trigger] entities@[j]).0@ == m.entities@[j].0@ && entities@[j].1
                    == m.entities@[j].1,
        decreases m.entities.len() - i,
    {
        entities.push((m.entities[i].0.clone(), m.entities[i].1));
        i += 1;
    }
    assert(shares(entities@) =~= shares(m.entities@));
    Mention { text: m.text.clone(), link_probability: m.link_probability, entities }
}

/// A query and the link probabilities of its mentions.
#[derive(Clone, Debug, PartialEq)]
pub struct TagMeQuery {
    pub query: Query,
    pub link_probabilities: Vec<(String, Ratio)>,
}

/// The probability kept for `sf`: that of its first entry, and one where
/// there is none.
pub open spec fn probability_of(kept: Seq<(Seq<char>, Ratio)>, sf: Seq<char>) -> Ratio
    decreases kept.len(),
{
    if kept.len() == 0 {
        Ratio { num: 1, den: 1 }
    } else if kept[0].0 == sf {
        kept[0].1
    } else {
        probability_of(kept.drop_first(), sf)
    }
}

/// The texts and link probabilities of the mentions.
pub open spec fn probabilities(ms: Seq<MentionModel>) -> Seq<(Seq<char>, Ratio)> {
    ms.map_values(|m: MentionModel| (m.text, m.link_probability))
}

impl TagMeQuery {
    /// The query of the text `query_str`.
    pub fn new(query_str: &str) -> (q: TagMeQuery)
        ensures
            q.query.text@ == crate::tagme::query_text::preprocessed(query_str@),
            q.link_probabilities@.len() == 0,
    {
        TagMeQuery { query: Query::new(0, query_str), link_probabilities: Vec::new() }
    }

    /// The text of the query.
    pub fn query_text(&self) -> (q: &Query)
        ensures
            *q == self.query,
    {
        &self.query
    }

    /// Whether some mention shadows the `i`th.
    fn is_shadowed(mentions: &Vec<Mention>, counts: &Vec<u128>, i: usize) -> (b: bool)
        requires
            i < mentions@.len(),
            counts@.len() == mentions@.len(),
            forall|k: int|
                0 <= k < counts@.len() ==> #[trigger] counts@[k] == word_count(mentions@[k].text@),
        ensures
            b == is_dropped(mention_models(mentions@), i as int),
    {
        let ghost ms = mention_models(mentions@);
        let inner = chars_of(mentions[i].text.as_str());
        let mut j: usize = 0;
        while j < mentions.len()
            invariant
                j <= mentions.len(),
                i < mentions@.len(),
                ms == mention_models(mentions@),
                inner@ == mentions@[i as int].text@,
                counts@.len() == mentions@.len(),
                forall|k: int|
                    0 <= k < counts@.len() ==> #[trigger] counts@[k] == word_count(
                        mentions@[k].text@,
                    ),
                forall|k: int| 0 <= k < j ==> !shadows(ms, i as int, k),
            decreases mentions.len() - j,
        {
            assert(ms[j as int] == mentions@[j as int]@);
            assert(ms[i as int] == mentions@[i as int]@);
            let behind = counts[j] > counts[i];
            if behind && mentions[i].link_probability.lt(&mentions[j].link_probability)
                && has_infix(&chars_of(mentions[j].text.as_str()), &inner) {
                assert(shadows(ms, i as int, j as int));
                return true;
            }
            j += 1;
        }
        false
    }

    /// Drops each mention that a longer mention holds and that is less
    /// probably a link than that one; keeps the link probabilities of all
    /// mentions.
    pub fn parse(&mut self, entities: Vec<Mention>) -> (r: Vec<Mention>)
        ensures
            mention_models(r@) == pruned(mention_models(entities@)),
            final(self).query == old(self).query,
            shares(final(self).link_probabilities@) == probabilities(mention_models(entities@)),
    {
        let ghost ms = mention_models(entities@);
        let mut counts: Vec<u128> = Vec::new();
        let mut kept: Vec<(String, Ratio)> = Vec::new();
        let mut i: usize = 0;
        while i < entities.len()
            invariant
                i <= entities.len(),
                ms == mention_models(entities@),
                counts@.len() == i,
                kept@.len() == i,
                forall|k: int| 0 <= k < i ==> #[trigger] counts@[k] == word_count(entities@[k].text@),
                forall|k: int|
                    0 <= k < i ==> (#[trigger] kept@[k]).0@ == ms[k].text && kept@[k].1
                        == ms[k].link_probability,
            decreases entities.len() - i,
        {
            assert(ms[i as int] == entities@[i as int]@);
            counts.push(count_words(entities[i].text.as_str()));
            kept.push((entities[i].text.clone(), entities[i].link_probability));
            i += 1;
        }
        assert(shares(kept@) =~= probabilities(ms));
        self.link_probabilities = kept;
        let mut out: Vec<Mention> = Vec::new();
        let mut i: usize = 0;
        assert(mention_models(out@) =~= picked(ms, kept_upto(ms, 0)));
        while i < entities.len()
            invariant
                i <= entities.len(),
                ms == mention_models(entities@),
                counts@.len() == entities@.len(),
                forall|k: int|
                    0 <= k < counts@.len() ==> #[trigger] counts@[k] == word_count(
                        entities@[k].text@,
                    ),
                mention_models(out@) == picked(ms, kept_upto(ms, i as int)),
            decreases entities.len() - i,
        {
            if !TagMeQuery::is_shadowed(&entities, &counts, i) {
                let ghost before = out@;
                let m = copy_of(&entities[i]);
                out.push(m);
                assert(ms[i as int] == entities@[i as int]@);
                assert(mention_models(out@) =~= mention_models(before).push(m@));
                assert(picked(ms, kept_upto(ms, i as int).push(i as int)) =~= picked(
                    ms,
                    kept_upto(ms, i as int),
                ).push(ms[i as int]));
            }
            i += 1;
        }
        out
    }

    /// The link probability kept for a mention: one where none is kept.
    pub fn link_probability_of(&self, sf: &str) -> (p: Ratio)
        ensures
            p == probability_of(shares(self.link_probabilities@), sf@),
    {
        let ghost all = shares(self.link_probabilities@);
        let mut i: usize = 0;
        assert(all.skip(0) =~= all);
        while i < self.link_probabilities.len()
            invariant
                i <= self.link_probabilities.len(),
                all == shares(self.link_probabilities@),
                probability_of(all, sf@) == probability_of(all.skip(i as int), sf@),
            decreases self.link_probabilities.len() - i,
        {
            assert(all.skip(i as int)[0] == all[i as int]);
            assert(all.skip(i as int).drop_first() =~= all.skip(i + 1));
            if same_text(self.link_probabilities[i].0.as_str(), sf) {
                return self.link_probabilities[i].1;
            }
            i += 1;
        }
        Ratio::new(1, 1)
    }

    /// The page picked from the candidates that are left for a mention: the
    /// one with the greatest commonness, and of those with the same the
    /// last.
    pub fn pick_best_entity(top_k_entities: &Vec<(String, Ratio)>) -> (r: String)
        ensures
            r@ == best_entity(shares(top_k_entities@)),
    {
        let ghost all = shares(top_k_entities@);
        let mut best: Option<usize> = None;
        let mut i: usize = 0;
        while i < top_k_entities.len()
            invariant
                i <= top_k_entities.len(),
                all == shares(top_k_entities@),
                match best {
                    Some(at) => at < i && best_upto(all, i as int) == Some(all[at as int]),
                    None => best_upto(all, i as int) is None,
                },
            decreases top_k_entities.len() - i,
        {
            assert(all[i as int].1 == top_k_entities@[i as int].1);
            let floor = match best {
                Some(at) => top_k_entities[at].1,
                None => Ratio::new(0, 1),
            };
            if top_k_entities[i].1.ge(&floor) {
                best = Some(i);
            }
            i += 1;
        }
        match best {
            Some(at) => {
                assert(all[at as int].0 == top_k_entities@[at as int].0@);
                top_k_entities[at].0.clone()
            },
            None => String::from_str("[-ERROR-]"),
        }
    }

    /// The names, each once and as the index knows them, in the order of
    /// their keys.
    pub fn normalized_entities(en_uris: &Vec<String>) -> (r: Vec<String>)
        ensures
            is_ordered_set(texts(r@)),
            forall|x: Seq<char>|
                texts(r@).contains(x) <==> distinct_upto(
                    texts(en_uris@),
                    en_uris@.len() as int,
                ).contains(x),
    {
        let ghost names = texts(en_uris@);
        let mut entries: Vec<(String, u64)> = Vec::new();
        let mut i: usize = 0;
        assert(names_of(pairs(entries@)) =~= distinct_upto(names, 0));
        while i < en_uris.len()
            invariant
                i <= en_uris.len(),
                names == texts(en_uris@),
                names_of(pairs(entries@)) == distinct_upto(names, i as int),
                forall|a: int, b: int|
                    0 <= a < b < entries@.len() ==> entries@[a].0@ != entries@[b].0@,
            decreases en_uris.len() - i,
        {
            assert(names[i as int] == en_uris@[i as int]@);
            let name = string_of(&replaced(&chars_of(en_uris[i].as_str()), ' ', '_'));
            let ghost before = entries@;
            let mut seen = false;
            let mut j: usize = 0;
            while j < entries.len() && !seen
                invariant
                    j <= entries.len(),
                    seen ==> j < entries@.len() && entries@[j as int].0@ == name@,
                    forall|k: int| 0 <= k < j ==> (#[trigger] entries@[k]).0@ != name@,
                decreases entries.len() - j + if seen { 0int } else { 1int },
            {
                if same_text(entries[j].0.as_str(), name.as_str()) {
                    seen = true;
                } else {
                    j += 1;
                }
            }
            proof {
                let d = names_of(pairs(before));
                assert(name@ == underscored(names[i as int]));
                if seen {
                    assert(d[j as int] == name@);
                    assert(d.contains(name@));
                } else {
                    if d.contains(name@) {
                        let k = choose|k: int| 0 <= k < d.len() && d[k] == name@;
                        assert(before[k].0@ == name@);
                    }
                }
            }
            if !seen {
                entries.push((name, 0));
                assert(names_of(pairs(entries@)) =~= names_of(pairs(before)).push(name@));
                assert forall|a: int, b: int| 0 <= a < b < entries@.len() implies entries@[a].0@
                    != entries@[b].0@ by {
                    if b < before.len() {
                        assert(entries@[a] == before[a] && entries@[b] == before[b]);
                    } else {
                        assert(entries@[a] == before[a]);
                    }
                }
            }
            i += 1;
        }
        let ghost unsorted = entries@;
        sort_by_key(&mut entries);
        let mut out: Vec<String> = Vec::new();
        let mut i: usize = 0;
        while i < entries.len()
            invariant
                i <= entries.len(),
                out@.len() == i,
                forall|k: int| 0 <= k < i ==> (#[trigger] out@[k])@ == entries@[k].0@,
            decreases entries.len() - i,
        {
            out.push(entries[i].0.clone());
            i += 1;
        }
        proof {
            broadcast use vstd::seq_lib::group_to_multiset_ensures;

            let r = texts(out@);
            let d = distinct_upto(names, en_uris@.len() as int);
            assert(r =~= names_of(pairs(entries@)));
            assert forall|a: int, b: int| 0 <= a < b < r.len() implies r[a] != r[b] by {
                if r[a] == r[b] {
                    assert(entries@.to_multiset().contains(entries@[a]));
                    assert(entries@.to_multiset().contains(entries@[b]));
                    assert(unsorted.contains(entries@[a]));
                    assert(unsorted.contains(entries@[b]));
                    let p = choose|p: int| 0 <= p < unsorted.len() && unsorted[p] == entries@[a];
                    let q = choose|q: int| 0 <= q < unsorted.len() && unsorted[q] == entries@[b];
                    if p < q {
                        assert(unsorted[p].0@ != unsorted[q].0@);
                    }
                    if q < p {
                        assert(unsorted[q].0@ != unsorted[p].0@);
                    }
                    assert(entries@[a] == entries@[b]);
                    assert(unsorted.no_duplicates()) by {
                        assert forall|u: int, v: int|
                            0 <= u < unsorted.len() && 0 <= v < unsorted.len() && u
                                != v implies unsorted[u] != unsorted[v] by {
                            if u < v {
                                assert(unsorted[u].0@ != unsorted[v].0@);
                            } else {
                                assert(unsorted[v].0@ != unsorted[u].0@);
                            }
                        }
                    }
                    unsorted.lemma_multiset_has_no_duplicates();
                    entries@.lemma_multiset_has_no_duplicates_conv();
                }
            }
            assert forall|a: int, b: int| 0 <= a < b < r.len() implies !key_lt(r[b], r[a]) by {
                assert(pairs(entries@)[a].0 == r[a]);
                assert(pairs(entries@)[b].0 == r[b]);
            }
            assert forall|x: Seq<char>| r.contains(x) <==> d.contains(x) by {
                if r.contains(x) {
                    let a = choose|a: int| 0 <= a < r.len() && r[a] == x;
                    assert(entries@.to_multiset().contains(entries@[a]));
                    assert(unsorted.contains(entries@[a]));
                    let p = choose|p: int| 0 <= p < unsorted.len() && unsorted[p] == entries@[a];
                    assert(names_of(pairs(unsorted))[p] == x);
                }
                if d.contains(x) {
                    let p = choose|p: int| 0 <= p < d.len() && d[p] == x;
                    assert(unsorted.to_multiset().contains(unsorted[p]));
                    assert(entries@.contains(unsorted[p]));
                    let a = choose|a: int| 0 <= a < entries@.len() && entries@[a] == unsorted[p];
                    assert(r[a] == x);
                }
            }
        }
        out
    }

    /// All pairs of different pages of a list, each pair once: the pairs
    /// whose relatedness is asked for.
    pub fn entity_pairs(entities: &Vec<String>) -> (r: Vec<(String, String)>)
        ensures
            pair_texts(r@) == all_pairs(texts(entities@)),
    {
        let ghost names = texts(entities@);
        let mut out: Vec<(String, String)> = Vec::new();
        if entities.len() < 2 {
            assert(pair_texts(out@) =~= all_pairs(names));
            return out;
        }
        let mut i: usize = 0;
        assert(pair_texts(out@) + pairs_from(names, 0, 1) =~= all_pairs(names));
        while i < entities.len() - 1
            invariant
                entities@.len() >= 2,
                i <= entities.len() - 1,
                names == texts(entities@),
                pair_texts(out@) + pairs_from(names, i as int, i + 1) == all_pairs(names),
            decreases entities.len() - i,
        {
            let mut j: usize = i + 1;
            while j < entities.len()
                invariant
                    i < j <= entities.len(),
                    i < entities.len() - 1,
                    names == texts(entities@),
                    pair_texts(out@) + pairs_from(names, i as int, j as int) == all_pairs(names),
                decreases entities.len() - j,
            {
                let ghost before = out@;
                out.push((entities[i].clone(), entities[j].clone()));
                proof {
                    assert(names[i as int] == entities@[i as int]@);
                    assert(names[j as int] == entities@[j as int]@);
                    let p = (names[i as int], names[j as int]);
                    assert(pair_texts(out@) =~= pair_texts(before).push(p));
                    assert(pair_texts(before) + (seq![p] + pairs_from(names, i as int, j + 1))
                        =~= pair_texts(out@) + pairs_from(names, i as int, j + 1));
                }
                j += 1;
            }
            i += 1;
        }
        assert(pairs_from(names, i as int, i + 1) =~= Seq::empty());
        assert(pair_texts(out@) + Seq::<(Seq<char>, Seq<char>)>::empty() =~= pair_texts(out@));
        out
    }
}

/// The names of the entries.
pub open spec fn names_of(entries: Seq<(Seq<char>, u64)>) -> Seq<Seq<char>> {
    entries.map_values(|e: (Seq<char>, u64)| e.0)
}

} // verus!
