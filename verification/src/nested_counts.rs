//! Counting links in the nested form: for each surface, the count of each
//! page that it links to.

use crate::anchor::{parse_chars, parse_token, token_at, token_range};
use crate::anchor_counts::{
    can_fold, field_before_last, fold_counts, format_anchor_of, formatted, last_field, merged,
    room_for, tsv_line_fields,
};
use crate::fst_store::{holds_counts, widened_entries};
use crate::page_iter::{page_texts, pages_of, texts_read};
use crate::xml::xml_events;
use crate::surface_form::{pairs, total, SurfaceForm};
use crate::text::{chars_of, is_match_at, lowercase, matches_at, slice_of, texts, trim, trimmed};
use crate::trie::{
    add_count, count_of, counts, nested_counts, nested_entries, nested_new, nested_put,
    nested_take, no_counts, no_nested_counts, trie_new,
};
use vstd::prelude::*;

verus! {

/// The counts that `m` holds for `surface`: none where it holds none.
pub open spec fn inner_of(m: Map<Seq<char>, Map<Seq<char>, u32>>, surface: Seq<char>) -> Map<
    Seq<char>,
    u32,
> {
    if m.dom().contains(surface) {
        m[surface]
    } else {
        no_counts()
    }
}

/// The counts after one more link from `surface` to `page` was counted.
pub open spec fn with_link(
    m: Map<Seq<char>, Map<Seq<char>, u32>>,
    surface: Seq<char>,
    page: Seq<char>,
) -> Map<Seq<char>, Map<Seq<char>, u32>> {
    let inner = inner_of(m, surface);
    m.insert(surface, inner.insert(page, (count_of(inner, page) + 1) as u32))
}

/// The counts after each of `links` was counted once more, in order.
pub open spec fn nested_tally(
    m: Map<Seq<char>, Map<Seq<char>, u32>>,
    links: Seq<(Seq<char>, Seq<char>)>,
) -> Map<Seq<char>, Map<Seq<char>, u32>>
    decreases links.len(),
{
    if links.len() == 0 {
        m
    } else {
        let before = nested_tally(m, links.drop_last());
        with_link(before, links.last().0, links.last().1)
    }
}

/// No count of `m` would pass the largest count if `n` were added to it.
pub open spec fn nested_room(m: Map<Seq<char>, Map<Seq<char>, u32>>, n: int) -> bool {
    forall|s: Seq<char>, p: Seq<char>| count_of(inner_of(m, s), p) + n <= u32::MAX
}

/// The counts of two nested maps added up, surface by surface and page by
/// page.
pub open spec fn merged_nested(
    a: Map<Seq<char>, Map<Seq<char>, u32>>,
    b: Map<Seq<char>, Map<Seq<char>, u32>>,
) -> Map<Seq<char>, Map<Seq<char>, u32>> {
    Map::new(
        |s: Seq<char>| a.dom().contains(s) || b.dom().contains(s),
        |s: Seq<char>| merged(inner_of(a, s), inner_of(b, s)),
    )
}

/// The surface and the page counted for the link that opens at `begin`,
/// where `[[` stands.
pub open spec fn link_pair_at(text: Seq<char>, begin: int) -> Option<(Seq<char>, Seq<char>)> {
    match token_at(text, begin) {
        Some(t) => if trim(t).len() > 0 {
            Some(formatted(parse_token(t)))
        } else {
            None
        },
        None => None,
    }
}

/// The surfaces and pages counted for the links of `text` from `from` on,
/// in order. The whole text is read.
pub open spec fn link_pairs_from(text: Seq<char>, from: int) -> Seq<(Seq<char>, Seq<char>)>
    decreases text.len() - from,
{
    if from < 0 || from + 2 > text.len() {
        Seq::empty()
    } else if matches_at(text, seq!['[', '['], from) {
        match link_pair_at(text, from) {
            Some(p) => seq![p] + link_pairs_from(text, from + 2),
            None => link_pairs_from(text, from + 2),
        }
    } else {
        link_pairs_from(text, from + 1)
    }
}

/// The texts of a list of pairs of strings.
pub open spec fn pair_views(list: Seq<(String, String)>) -> Seq<(Seq<char>, Seq<char>)> {
    list.map_values(|p: (String, String)| (p.0@, p.1@))
}

/// Adding no counts changes nothing.
pub proof fn lemma_merged_with_none(a: Map<Seq<char>, u32>)
    ensures
        merged(a, no_counts()) == a,
        merged(no_counts(), a) == a,
{
    assert(merged(a, no_counts()) =~= a);
    assert(merged(no_counts(), a) =~= a);
}

/// The order in which two lots of counts are added up does not matter.
pub proof fn lemma_merged_commutes(a: Map<Seq<char>, u32>, b: Map<Seq<char>, u32>)
    ensures
        merged(a, b) == merged(b, a),
{
    assert(merged(a, b) =~= merged(b, a));
}

/// Nor does it matter how three lots of counts are grouped, where the sums
/// fit.
pub proof fn lemma_merged_associates(
    a: Map<Seq<char>, u32>,
    b: Map<Seq<char>, u32>,
    c: Map<Seq<char>, u32>,
)
    requires
        forall|k: Seq<char>| count_of(a, k) + count_of(b, k) + count_of(c, k) <= u32::MAX,
    ensures
        merged(merged(a, b), c) == merged(a, merged(b, c)),
{
    assert forall|k: Seq<char>| #[trigger]
        merged(merged(a, b), c).dom().contains(k) implies merged(merged(a, b), c)[k] == merged(
        a,
        merged(b, c),
    )[k] by {
        assert(count_of(a, k) + count_of(b, k) + count_of(c, k) <= u32::MAX);
        assert(count_of(merged(a, b), k) == count_of(a, k) + count_of(b, k));
        assert(count_of(merged(b, c), k) == count_of(b, k) + count_of(c, k));
    }
    assert(merged(merged(a, b), c) =~= merged(a, merged(b, c)));
}

/// The order in which two nested lots of counts are added up does not
/// matter.
pub proof fn lemma_merged_nested_commutes(
    a: Map<Seq<char>, Map<Seq<char>, u32>>,
    b: Map<Seq<char>, Map<Seq<char>, u32>>,
)
    ensures
        merged_nested(a, b) == merged_nested(b, a),
{
    assert forall|s: Seq<char>| #[trigger]
        merged_nested(a, b).dom().contains(s) implies merged_nested(a, b)[s] == merged_nested(
        b,
        a,
    )[s] by {
        lemma_merged_commutes(inner_of(a, s), inner_of(b, s));
    }
    assert(merged_nested(a, b) =~= merged_nested(b, a));
}

/// The surfaces and pages counted for the links of a text, in order.
pub fn link_pairs(text: &str) -> (r: Vec<(String, String)>)
    ensures
        pair_views(r@) == link_pairs_from(text@, 0),
{
    let body = chars_of(text);
    let open: Vec<char> = vec!['[', '['];
    assert(open@ =~= seq!['[', '[']);
    let mut out: Vec<(String, String)> = Vec::new();
    let mut i: usize = 0;
    assert(pair_views(out@) =~= Seq::empty());
    while body.len() >= 2 && i <= body.len() - 2
        invariant
            open@ == seq!['[', '['],
            link_pairs_from(body@, 0) == pair_views(out@) + link_pairs_from(body@, i as int),
        decreases body.len() - i,
    {
        if is_match_at(&body, &open, i) {
            match token_range(&body, i) {
                Some((from, to)) => {
                    let token = slice_of(&body, from, to);
                    if trimmed(&token).len() > 0 {
                        let pair = format_anchor_of(&parse_chars(&token));
                        let ghost before = out@;
                        let ghost p = (pair.0@, pair.1@);
                        out.push(pair);
                        assert(pair_views(out@) =~= pair_views(before).push(p));
                        assert(pair_views(before) + (seq![p] + link_pairs_from(body@, i + 2))
                            =~= pair_views(out@) + link_pairs_from(body@, i + 2));
                    }
                },
                None => {},
            }
            i += 2;
        } else {
            i += 1;
        }
    }
    assert(pair_views(out@) + Seq::<(Seq<char>, Seq<char>)>::empty() =~= pair_views(out@));
    out
}

/// Counts one more link from `surface` to `page`.
pub fn add_link(
    trie: &mut qp_trie::Trie<
        qp_trie::wrapper::BString,
        qp_trie::Trie<qp_trie::wrapper::BString, u32>,
    >,
    surface: &str,
    page: &str,
)
    requires
        count_of(inner_of(nested_counts(*old(trie)), surface@), page@) + 1 <= u32::MAX,
    ensures
        nested_counts(*final(trie)) == with_link(nested_counts(*old(trie)), surface@, page@),
{
    let mut inner = match nested_take(trie, surface) {
        Some(inner) => inner,
        None => trie_new(),
    };
    add_count(&mut inner, page, 1);
    nested_put(trie, surface, inner);
    assert(nested_counts(*trie) =~= with_link(nested_counts(*old(trie)), surface@, page@));
}

/// Counts each of `links` once more.
pub fn add_links(
    trie: &mut qp_trie::Trie<
        qp_trie::wrapper::BString,
        qp_trie::Trie<qp_trie::wrapper::BString, u32>,
    >,
    links: &Vec<(String, String)>,
)
    requires
        nested_room(nested_counts(*old(trie)), links@.len() as int),
    ensures
        nested_counts(*final(trie)) == nested_tally(nested_counts(*old(trie)), pair_views(links@)),
        nested_room(nested_counts(*final(trie)), 0),
        forall|s: Seq<char>, p: Seq<char>|
            count_of(inner_of(nested_counts(*final(trie)), s), p) <= count_of(
                inner_of(nested_counts(*old(trie)), s),
                p,
            ) + links@.len(),
{
    let ghost all = pair_views(links@);
    let ghost start = nested_counts(*trie);
    let mut i: usize = 0;
    assert(all.take(0) =~= Seq::<(Seq<char>, Seq<char>)>::empty());
    while i < links.len()
        invariant
            i <= links.len(),
            all == pair_views(links@),
            start == nested_counts(*old(trie)),
            nested_counts(*trie) == nested_tally(start, all.take(i as int)),
            nested_room(nested_counts(*trie), links@.len() - i),
            forall|s: Seq<char>, p: Seq<char>|
                count_of(inner_of(nested_counts(*trie), s), p) <= count_of(inner_of(start, s), p)
                    + i,
        decreases links.len() - i,
    {
        let ghost before = nested_counts(*trie);
        let ghost s0 = links@[i as int].0@;
        let ghost p0 = links@[i as int].1@;
        assert(count_of(inner_of(before, s0), p0) + (links@.len() - i) <= u32::MAX);
        add_link(trie, links[i].0.as_str(), links[i].1.as_str());
        proof {
            assert(all.take(i + 1).drop_last() =~= all.take(i as int));
            assert(all.take(i + 1).last() == (s0, p0));
            let now = nested_counts(*trie);
            assert forall|s: Seq<char>, p: Seq<char>|
                count_of(inner_of(now, s), p) <= count_of(inner_of(before, s), p) + 1 by {}
            assert forall|s: Seq<char>, p: Seq<char>|
                count_of(inner_of(now, s), p) + (links@.len() - (i + 1)) <= u32::MAX by {
                assert(count_of(inner_of(before, s), p) + (links@.len() - i) <= u32::MAX);
                assert(count_of(inner_of(now, s), p) <= count_of(inner_of(before, s), p) + 1);
            }
            assert forall|s: Seq<char>, p: Seq<char>|
                count_of(inner_of(now, s), p) <= count_of(inner_of(start, s), p) + (i + 1) by {
                assert(count_of(inner_of(before, s), p) <= count_of(inner_of(start, s), p) + i);
                assert(count_of(inner_of(now, s), p) <= count_of(inner_of(before, s), p) + 1);
            }
        }
        i += 1;
    }
    assert(all.take(links@.len() as int) =~= all);
}

/// One of the first `n` entries has the key `k`.
pub open spec fn seen_outer(
    entries: Seq<(String, qp_trie::Trie<qp_trie::wrapper::BString, u32>)>,
    n: int,
    k: Seq<char>,
) -> bool {
    exists|j: int| 0 <= j < n && #[trigger] entries[j].0@ == k
}

/// Counts links in the nested form.
pub struct TrieBuilderNested;

impl TrieBuilderNested {
    /// Adds the counts of `from` to those of `into`, surface by surface and
    /// page by page.
    pub fn fold(
        into: &mut qp_trie::Trie<
            qp_trie::wrapper::BString,
            qp_trie::Trie<qp_trie::wrapper::BString, u32>,
        >,
        from: qp_trie::Trie<
            qp_trie::wrapper::BString,
            qp_trie::Trie<qp_trie::wrapper::BString, u32>,
        >,
    )
        requires
            TrieBuilderNested::fits(nested_counts(*old(into)), nested_counts(from)),
        ensures
            nested_counts(*final(into)) == merged_nested(
                nested_counts(*old(into)),
                nested_counts(from),
            ),
    {
        let ghost b = nested_counts(from);
        let entries = nested_entries(from);
        TrieBuilderNested::fold_entries(into, entries, Ghost(b));
    }

    /// Whether the counts of `from` can be added to those of `into`: no sum
    /// would pass the largest count.
    pub open spec fn fits(
        into: Map<Seq<char>, Map<Seq<char>, u32>>,
        from: Map<Seq<char>, Map<Seq<char>, u32>>,
    ) -> bool {
        forall|s: Seq<char>, p: Seq<char>|
            count_of(inner_of(into, s), p) + count_of(inner_of(from, s), p) <= u32::MAX
    }

    /// Whether the counts that `from` holds for `surface` can be added to
    /// those that `into` holds for it.
    pub open spec fn surface_fits(
        into: Map<Seq<char>, Map<Seq<char>, u32>>,
        from: Map<Seq<char>, Map<Seq<char>, u32>>,
        surface: Seq<char>,
    ) -> bool {
        forall|p: Seq<char>|
            count_of(inner_of(into, surface), p) + count_of(inner_of(from, surface), p)
                <= u32::MAX
    }

    /// Adds the counts of `from` to those of `into` where no sum would pass
    /// the largest count, and says whether it did; else `into` stays as it
    /// is.
    pub fn try_fold(
        into: &mut qp_trie::Trie<
            qp_trie::wrapper::BString,
            qp_trie::Trie<qp_trie::wrapper::BString, u32>,
        >,
        from: qp_trie::Trie<
            qp_trie::wrapper::BString,
            qp_trie::Trie<qp_trie::wrapper::BString, u32>,
        >,
    ) -> (done: bool)
        ensures
            done == TrieBuilderNested::fits(nested_counts(*old(into)), nested_counts(from)),
            done ==> nested_counts(*final(into)) == merged_nested(
                nested_counts(*old(into)),
                nested_counts(from),
            ),
            !done ==> nested_counts(*final(into)) == nested_counts(*old(into)),
    {
        let ghost a = nested_counts(*old(into));
        let ghost b = nested_counts(from);
        let entries = nested_entries(from);
        let mut i: usize = 0;
        while i < entries.len()
            invariant
                i <= entries.len(),
                a == nested_counts(*old(into)),
                b == nested_counts(from),
                nested_counts(*into) == a,
                forall|j: int|
                    0 <= j < entries@.len() ==> b.contains_pair(
                        #[trigger] entries@[j].0@,
                        counts(entries@[j].1),
                    ),
                forall|j: int|
                    0 <= j < i ==> #[trigger] TrieBuilderNested::surface_fits(a, b, entries@[j].0@),
            decreases entries.len() - i,
        {
            let ghost key = entries@[i as int].0@;
            assert(b.contains_pair(key, counts(entries@[i as int].1)));
            match nested_take(into, entries[i].0.as_str()) {
                Some(inner) => {
                    let ok = can_fold(&inner, &entries[i].1);
                    nested_put(into, entries[i].0.as_str(), inner);
                    assert(nested_counts(*into) =~= a);
                    if !ok {
                        proof {
                            let p = choose|p: Seq<char>|
                                count_of(counts(inner), p) + count_of(
                                    counts(entries@[i as int].1),
                                    p,
                                ) > u32::MAX;
                            assert(count_of(inner_of(a, key), p) + count_of(inner_of(b, key), p)
                                > u32::MAX);
                        }
                        return false;
                    }
                    assert(TrieBuilderNested::surface_fits(a, b, key));
                },
                None => {
                    assert(nested_counts(*into) =~= a);
                    assert(inner_of(a, key) == no_counts());
                    assert(TrieBuilderNested::surface_fits(a, b, key));
                },
            }
            i += 1;
        }
        proof {
            assert forall|s: Seq<char>, p: Seq<char>|
                count_of(inner_of(a, s), p) + count_of(inner_of(b, s), p) <= u32::MAX by {
                if b.dom().contains(s) {
                    let j = choose|j: int| 0 <= j < entries@.len() && #[trigger] entries@[j].0@ == s;
                    assert(TrieBuilderNested::surface_fits(a, b, entries@[j].0@));
                }
            }
        }
        TrieBuilderNested::fold_entries(into, entries, Ghost(b));
        true
    }

    /// Adds the counts of the entries of `b` to those of `into`.
    fn fold_entries(
        into: &mut qp_trie::Trie<
            qp_trie::wrapper::BString,
            qp_trie::Trie<qp_trie::wrapper::BString, u32>,
        >,
        entries: Vec<(String, qp_trie::Trie<qp_trie::wrapper::BString, u32>)>,
        Ghost(b): Ghost<Map<Seq<char>, Map<Seq<char>, u32>>>,
    )
        requires
            TrieBuilderNested::fits(nested_counts(*old(into)), b),
            forall|j: int|
                0 <= j < entries@.len() ==> b.contains_pair(
                    #[trigger] entries@[j].0@,
                    counts(entries@[j].1),
                ),
            forall|k: Seq<char>|
                b.dom().contains(k) ==> exists|j: int|
                    0 <= j < entries@.len() && #[trigger] entries@[j].0@ == k,
            forall|j: int, l: int| 0 <= j < l < entries@.len() ==> entries@[j].0@ != entries@[l].0@,
        ensures
            nested_counts(*final(into)) == merged_nested(nested_counts(*old(into)), b),
    {
        let ghost a = nested_counts(*old(into));
        assert forall|k: Seq<char>| b.dom().contains(k) implies seen_outer(
            entries@,
            entries@.len() as int,
            k,
        ) by {
            let j = choose|j: int| 0 <= j < entries@.len() && #[trigger] entries@[j].0@ == k;
            assert(entries@[j].0@ == k);
        }
        let mut i: usize = 0;
        while i < entries.len()
            invariant
                i <= entries.len(),
                a == nested_counts(*old(into)),
                forall|s: Seq<char>, p: Seq<char>|
                    count_of(inner_of(a, s), p) + count_of(inner_of(b, s), p) <= u32::MAX,
                forall|j: int|
                    0 <= j < entries@.len() ==> b.contains_pair(
                        #[trigger] entries@[j].0@,
                        counts(entries@[j].1),
                    ),
                forall|j: int, l: int|
                    0 <= j < l < entries@.len() ==> entries@[j].0@ != entries@[l].0@,
                forall|k: Seq<char>|
                    b.dom().contains(k) ==> seen_outer(entries@, entries@.len() as int, k),
                forall|k: Seq<char>| #[trigger]
                    nested_counts(*into).dom().contains(k) <==> a.dom().contains(k) || seen_outer(
                        entries@,
                        i as int,
                        k,
                    ),
                forall|k: Seq<char>| #[trigger]
                    inner_of(nested_counts(*into), k) == (if seen_outer(entries@, i as int, k) {
                        merged(inner_of(a, k), inner_of(b, k))
                    } else {
                        inner_of(a, k)
                    }),
            decreases entries.len() - i,
        {
            let ghost cur = nested_counts(*into);
            let ghost key = entries@[i as int].0@;
            proof {
                assert(b.contains_pair(key, counts(entries@[i as int].1)));
                if seen_outer(entries@, i as int, key) {
                    let j = choose|j: int| 0 <= j < i && #[trigger] entries@[j].0@ == key;
                    assert(entries@[j].0@ != entries@[i as int].0@);
                }
                assert(inner_of(cur, key) == inner_of(a, key));
                assert forall|p: Seq<char>|
                    count_of(inner_of(a, key), p) + count_of(counts(entries@[i as int].1), p)
                        <= u32::MAX by {
                    assert(count_of(inner_of(a, key), p) + count_of(inner_of(b, key), p)
                        <= u32::MAX);
                }
            }
            let mut inner = match nested_take(into, entries[i].0.as_str()) {
                Some(inner) => inner,
                None => trie_new(),
            };
            assert(counts(inner) == inner_of(cur, key));
            fold_counts(&mut inner, &entries[i].1);
            nested_put(into, entries[i].0.as_str(), inner);
            proof {
                let now = nested_counts(*into);
                assert(now =~= cur.insert(key, merged(inner_of(a, key), inner_of(b, key))));
                assert forall|k: Seq<char>| seen_outer(entries@, i + 1, k) <==> (k == key
                    || seen_outer(entries@, i as int, k)) by {
                    if seen_outer(entries@, i + 1, k) {
                        let j = choose|j: int| 0 <= j < i + 1 && #[trigger] entries@[j].0@ == k;
                        if j < i {
                            assert(seen_outer(entries@, i as int, k));
                        }
                    }
                    if k == key {
                        assert(entries@[i as int].0@ == k);
                    }
                    if seen_outer(entries@, i as int, k) {
                        let j = choose|j: int| 0 <= j < i && #[trigger] entries@[j].0@ == k;
                        assert(0 <= j < i + 1 && entries@[j].0@ == k);
                    }
                }
                assert forall|k: Seq<char>| #[trigger]
                    now.dom().contains(k) <==> a.dom().contains(k) || seen_outer(
                        entries@,
                        i + 1,
                        k,
                    ) by {
                    assert(cur.dom().contains(k) <==> a.dom().contains(k) || seen_outer(
                        entries@,
                        i as int,
                        k,
                    ));
                }
                assert forall|k: Seq<char>| #[trigger]
                    inner_of(now, k) == (if seen_outer(entries@, i + 1, k) {
                        merged(inner_of(a, k), inner_of(b, k))
                    } else {
                        inner_of(a, k)
                    }) by {
                    assert(inner_of(cur, k) == (if seen_outer(entries@, i as int, k) {
                        merged(inner_of(a, k), inner_of(b, k))
                    } else {
                        inner_of(a, k)
                    }));
                }
            }
            i += 1;
        }
        proof {
            let now = nested_counts(*into);
            let want = merged_nested(a, b);
            assert forall|k: Seq<char>| seen_outer(entries@, i as int, k) <==> b.dom().contains(
                k,
            ) by {
                if seen_outer(entries@, i as int, k) {
                    let j = choose|j: int| 0 <= j < i && #[trigger] entries@[j].0@ == k;
                    assert(b.contains_pair(entries@[j].0@, counts(entries@[j].1)));
                }
            }
            assert forall|k: Seq<char>| now.dom().contains(k) <==> want.dom().contains(k) by {
                assert(now.dom().contains(k) <==> a.dom().contains(k) || seen_outer(
                    entries@,
                    i as int,
                    k,
                ));
            }
            assert forall|k: Seq<char>| now.dom().contains(k) implies now[k] == want[k] by {
                assert(inner_of(now, k) == (if seen_outer(entries@, i as int, k) {
                    merged(inner_of(a, k), inner_of(b, k))
                } else {
                    inner_of(a, k)
                }));
                if !b.dom().contains(k) {
                    lemma_merged_with_none(inner_of(a, k));
                }
            }
            assert(now =~= want);
        }
    }

    /// The counts of the links in the given texts of pages, in the nested
    /// form: each text is read whole, and each of its links is counted once.
    /// `None` exactly where there are more links than a count can hold.
    pub fn count_pages(pages: &Vec<String>) -> (r: Option<
        qp_trie::Trie<qp_trie::wrapper::BString, qp_trie::Trie<qp_trie::wrapper::BString, u32>>,
    >)
        ensures
            counted_nested_pages(texts(pages@), r),
    {
        let ghost all_pages = texts(pages@);
        let mut trie = nested_new();
        let mut used: usize = 0;
        let mut i: usize = 0;
        assert(all_pages.take(0) =~= Seq::<Seq<char>>::empty());
        while i < pages.len()
            invariant
                i <= pages.len(),
                all_pages == texts(pages@),
                nested_counts(trie) == nested_tally(
                    no_nested_counts(),
                    links_of_pages(all_pages.take(i as int)),
                ),
                used == links_of_pages(all_pages.take(i as int)).len(),
                used <= u32::MAX,
                forall|s: Seq<char>, p: Seq<char>|
                    count_of(inner_of(nested_counts(trie), s), p) <= used,
            decreases pages.len() - i,
        {
            let links = link_pairs(pages[i].as_str());
            let ghost before = links_of_pages(all_pages.take(i as int));
            proof {
                assert(all_pages.take(i + 1).drop_last() =~= all_pages.take(i as int));
                assert(all_pages.take(i + 1).last() == pages@[i as int]@);
                assert(links_of_pages(all_pages.take(i + 1)) == before + pair_views(links@));
            }
            if links.len() > u32::MAX as usize - used {
                proof {
                    lemma_links_of_pages_grow(all_pages, i + 1);
                }
                return None;
            }
            proof {
                assert forall|s: Seq<char>, p: Seq<char>|
                    count_of(inner_of(nested_counts(trie), s), p) + links@.len() <= u32::MAX by {
                    assert(count_of(inner_of(nested_counts(trie), s), p) <= used);
                }
                lemma_nested_tally_concat(no_nested_counts(), before, pair_views(links@));
            }
            let ghost held = nested_counts(trie);
            add_links(&mut trie, &links);
            proof {
                assert forall|s: Seq<char>, p: Seq<char>|
                    count_of(inner_of(nested_counts(trie), s), p) <= used + links@.len() by {
                    assert(count_of(inner_of(held, s), p) <= used);
                }
            }
            used = used + links.len();
            i += 1;
        }
        assert(all_pages.take(pages@.len() as int) =~= all_pages);
        Some(trie)
    }

    /// The counts of the links in the pages of an XML text, in the nested
    /// form: what counting gives for the texts of the pages that are not
    /// passed over.
    pub fn extract(xml: &str) -> (r: Option<
        qp_trie::Trie<qp_trie::wrapper::BString, qp_trie::Trie<qp_trie::wrapper::BString, u32>>,
    >)
        ensures
            counted_nested_pages(texts_read(pages_of(xml_events(xml@))), r),
    {
        let found = page_texts(xml);
        TrieBuilderNested::count_pages(&found)
    }
}

/// The surfaces and pages counted for the links of the given texts of
/// pages, page after page.
pub open spec fn links_of_pages(pages: Seq<Seq<char>>) -> Seq<(Seq<char>, Seq<char>)>
    decreases pages.len(),
{
    if pages.len() == 0 {
        Seq::empty()
    } else {
        links_of_pages(pages.drop_last()) + link_pairs_from(pages.last(), 0)
    }
}

/// `r` is what counting gives for the given texts of pages: the tally of
/// their links, and nothing exactly where the links are more than a count
/// can hold.
pub open spec fn counted_nested_pages(
    pages: Seq<Seq<char>>,
    r: Option<
        qp_trie::Trie<qp_trie::wrapper::BString, qp_trie::Trie<qp_trie::wrapper::BString, u32>>,
    >,
) -> bool {
    match r {
        Some(trie) => links_of_pages(pages).len() <= u32::MAX && nested_counts(trie)
            == nested_tally(no_nested_counts(), links_of_pages(pages)),
        None => links_of_pages(pages).len() > u32::MAX,
    }
}

/// The links of some of the first pages are no more than the links of all.
pub proof fn lemma_links_of_pages_grow(pages: Seq<Seq<char>>, n: int)
    requires
        0 <= n <= pages.len(),
    ensures
        links_of_pages(pages.take(n)).len() <= links_of_pages(pages).len(),
    decreases pages.len() - n,
{
    if n < pages.len() {
        lemma_links_of_pages_grow(pages, n + 1);
        assert(pages.take(n + 1).drop_last() =~= pages.take(n));
    } else {
        assert(pages.take(n) =~= pages);
    }
}

/// Counting one list of links and then another is counting the two lists
/// joined.
pub proof fn lemma_nested_tally_concat(
    m: Map<Seq<char>, Map<Seq<char>, u32>>,
    a: Seq<(Seq<char>, Seq<char>)>,
    b: Seq<(Seq<char>, Seq<char>)>,
)
    ensures
        nested_tally(nested_tally(m, a), b) == nested_tally(m, a + b),
    decreases b.len(),
{
    if b.len() == 0 {
        assert(a + b =~= a);
    } else {
        lemma_nested_tally_concat(m, a, b.drop_last());
        assert((a + b).drop_last() =~= a + b.drop_last());
    }
}

/// The surface forms hold what the nested counts hold: one form for each
/// surface, with each page of the surface once and its count, and with the
/// sum of the counts.
pub open spec fn forms_hold(forms: Seq<SurfaceForm>, m: Map<Seq<char>, Map<Seq<char>, u32>>) -> bool {
    &&& forall|i: int|
        0 <= i < forms.len() ==> (#[trigger] forms[i]).wf() && m.dom().contains(forms[i].text@)
            && holds_counts(pairs(forms[i].anchors@), m[forms[i].text@])
    &&& forall|k: Seq<char>|
        m.dom().contains(k) ==> exists|i: int| 0 <= i < forms.len() && (#[trigger] forms[i]).text@ == k
    &&& forall|i: int, j: int| 0 <= i < j < forms.len() ==> forms[i].text@ != forms[j].text@
}

/// The sum of a list of counts is that of the list without one entry, and
/// the count of that entry.
pub proof fn lemma_total_remove(entries: Seq<(Seq<char>, u64)>, j: int)
    requires
        0 <= j < entries.len(),
    ensures
        total(entries) == total(entries.remove(j)) + entries[j].1,
    decreases entries.len(),
{
    if j == entries.len() - 1 {
        assert(entries.remove(j) =~= entries.drop_last());
    } else {
        lemma_total_remove(entries.drop_last(), j);
        assert(entries.remove(j).drop_last() =~= entries.drop_last().remove(j));
        assert(entries.remove(j).last() == entries.last());
    }
}

/// A list that holds the counts without its `j`th entry holds the counts
/// without the key of that entry.
pub proof fn lemma_holds_counts_remove(
    entries: Seq<(Seq<char>, u64)>,
    m: Map<Seq<char>, u32>,
    j: int,
)
    requires
        holds_counts(entries, m),
        0 <= j < entries.len(),
    ensures
        holds_counts(entries.remove(j), m.remove(entries[j].0)),
{
    let rest = entries.remove(j);
    let k = entries[j].0;
    let less = m.remove(k);
    assert forall|i: int| 0 <= i < rest.len() implies less.contains_pair(
        (#[trigger] rest[i]).0,
        rest[i].1 as u32,
    ) && rest[i].1 <= u32::MAX by {
        if i < j {
            assert(rest[i] == entries[i]);
            assert(entries[i].0 != entries[j].0);
        } else {
            assert(rest[i] == entries[i + 1]);
            assert(entries[j].0 != entries[i + 1].0);
        }
    }
    assert forall|key: Seq<char>| less.dom().contains(key) implies exists|i: int|
        0 <= i < rest.len() && (#[trigger] rest[i]).0 == key by {
        let i = choose|i: int| 0 <= i < entries.len() && (#[trigger] entries[i]).0 == key;
        if i < j {
            assert(rest[i] == entries[i]);
        } else {
            assert(rest[i - 1] == entries[i]);
        }
    }
    assert forall|a: int, b: int| 0 <= a < b < rest.len() implies rest[a].0 != rest[b].0 by {
        let a0 = if a < j {
            a
        } else {
            a + 1
        };
        let b0 = if b < j {
            b
        } else {
            b + 1
        };
        assert(rest[a] == entries[a0] && rest[b] == entries[b0]);
        assert(entries[a0].0 != entries[b0].0);
    }
}

/// However the counts of a map are listed, they add up to the same sum.
pub proof fn lemma_total_of_counts(
    first: Seq<(Seq<char>, u64)>,
    second: Seq<(Seq<char>, u64)>,
    m: Map<Seq<char>, u32>,
)
    requires
        holds_counts(first, m),
        holds_counts(second, m),
    ensures
        total(first) == total(second),
    decreases first.len(),
{
    if first.len() == 0 {
        if second.len() > 0 {
            assert(m.contains_pair(second[0].0, second[0].1 as u32));
            let i = choose|i: int| 0 <= i < first.len() && (#[trigger] first[i]).0 == second[0].0;
        }
    } else {
        let n = first.len() - 1;
        let k = first[n].0;
        assert(m.contains_pair(first[n].0, first[n].1 as u32));
        let j = choose|j: int| 0 <= j < second.len() && (#[trigger] second[j]).0 == k;
        assert(m.contains_pair(second[j].0, second[j].1 as u32));
        assert(second[j].1 == first[n].1);
        lemma_holds_counts_remove(first, m, n);
        lemma_holds_counts_remove(second, m, j);
        assert(first.remove(n) =~= first.drop_last());
        lemma_total_of_counts(first.drop_last(), second.remove(j), m.remove(k));
        lemma_total_remove(second, j);
    }
}

/// The counts of a map add up to no more than a number of occurrences can
/// hold, however they are listed.
pub open spec fn counts_fit(m: Map<Seq<char>, u32>) -> bool {
    forall|entries: Seq<(Seq<char>, u64)>| #[trigger]
        holds_counts(entries, m) ==> total(entries) <= u64::MAX
}

/// The counts of each surface fit.
pub open spec fn all_counts_fit(m: Map<Seq<char>, Map<Seq<char>, u32>>) -> bool {
    forall|k: Seq<char>| m.dom().contains(k) ==> counts_fit(#[trigger] m[k])
}

/// The surface forms of the nested counts, as they are written to the
/// store: one form for each surface, with its pages and their counts.
/// `None` exactly where the counts of some surface add up to more than a
/// number of occurrences can hold.
pub fn surface_forms_of(
    trie: qp_trie::Trie<qp_trie::wrapper::BString, qp_trie::Trie<qp_trie::wrapper::BString, u32>>,
) -> (r: Option<Vec<SurfaceForm>>)
    ensures
        r is Some <==> all_counts_fit(nested_counts(trie)),
        r matches Some(forms) ==> forms_hold(forms@, nested_counts(trie)),
{
    let ghost m = nested_counts(trie);
    let entries = nested_entries(trie);
    let mut out: Vec<SurfaceForm> = Vec::new();
    let mut i: usize = 0;
    while i < entries.len()
        invariant
            i <= entries.len(),
            out@.len() == i,
            m == nested_counts(trie),
            forall|j: int|
                0 <= j < entries@.len() ==> m.contains_pair(
                    #[trigger] entries@[j].0@,
                    counts(entries@[j].1),
                ),
            forall|j: int|
                0 <= j < i ==> (#[trigger] out@[j]).wf() && out@[j].text@ == entries@[j].0@
                    && holds_counts(pairs(out@[j].anchors@), m[entries@[j].0@]),
        decreases entries.len() - i,
    {
        let anchors = widened_entries(&entries[i].1);
        assert(m.contains_pair(entries@[i as int].0@, counts(entries@[i as int].1)));
        if SurfaceForm::sum_of(&anchors).is_none() {
            proof {
                let k = entries@[i as int].0@;
                assert(holds_counts(pairs(anchors@), m[k]));
                assert(!counts_fit(m[k]));
                assert(m.dom().contains(k));
                assert(!all_counts_fit(m));
            }
            return None;
        }
        out.push(SurfaceForm::from_string(entries[i].0.clone(), anchors));
        i += 1;
    }
    proof {
        assert forall|k: Seq<char>| m.dom().contains(k) implies exists|j: int|
            0 <= j < out@.len() && (#[trigger] out@[j]).text@ == k by {
            let j = choose|j: int| 0 <= j < entries@.len() && #[trigger] entries@[j].0@ == k;
            assert(out@[j].text@ == k);
        }
        assert forall|k: Seq<char>| m.dom().contains(k) implies counts_fit(#[trigger] m[k]) by {
            let j = choose|j: int| 0 <= j < entries@.len() && #[trigger] entries@[j].0@ == k;
            assert(out@[j].wf());
            let held = pairs(out@[j].anchors@);
            assert(holds_counts(held, m[k]));
            assert forall|listed: Seq<(Seq<char>, u64)>| #[trigger]
                holds_counts(listed, m[k]) implies total(listed) <= u64::MAX by {
                lemma_total_of_counts(listed, held, m[k]);
            }
        }
    }
    Some(out)
}

/// The surface and the page counted for a line of a file of links: its last
/// field is the page, the field before it the surface.
pub open spec fn line_pair(line: Seq<char>) -> (Seq<char>, Seq<char>) {
    (lowercase(trim(field_before_last(line))), trim(last_field(line)))
}

/// The surfaces and pages counted for the lines `lines`, in order.
pub open spec fn line_pairs(lines: Seq<Seq<char>>) -> Seq<(Seq<char>, Seq<char>)> {
    lines.map_values(|l: Seq<char>| line_pair(l))
}

/// `n` can be added to every count that `m` holds for `surface`.
pub open spec fn surface_room(m: Map<Seq<char>, Map<Seq<char>, u32>>, surface: Seq<char>, n: int) -> bool {
    forall|p: Seq<char>| count_of(inner_of(m, surface), p) + n <= u32::MAX
}

/// `k` is the key of one of the entries from `from` on.
pub open spec fn kept_from(
    entries: Seq<(String, qp_trie::Trie<qp_trie::wrapper::BString, u32>)>,
    from: int,
    k: Seq<char>,
) -> bool {
    exists|j: int| from <= j < entries.len() && #[trigger] entries[j].0@ == k
}

/// Whether `n` can be added to every count of the trie: no count would pass
/// the largest count. The trie is taken apart and put together again as it
/// was.
pub fn nested_room_for(
    trie: &mut qp_trie::Trie<
        qp_trie::wrapper::BString,
        qp_trie::Trie<qp_trie::wrapper::BString, u32>,
    >,
    n: usize,
) -> (b: bool)
    ensures
        nested_counts(*final(trie)) == nested_counts(*old(trie)),
        b == nested_room(nested_counts(*old(trie)), n as int),
{
    let ghost m = nested_counts(*old(trie));
    if n > u32::MAX as usize {
        assert(!nested_room(m, n as int)) by {
            assert(count_of(inner_of(m, Seq::<char>::empty()), Seq::<char>::empty()) + n
                > u32::MAX);
        }
        return false;
    }
    let mut all = nested_new();
    core::mem::swap(&mut all, trie);
    let mut entries = nested_entries(all);
    let ghost first = entries@;
    let mut fits = true;
    assert(nested_counts(*trie) =~= no_nested_counts());
    while entries.len() > 0
        invariant
            n <= u32::MAX,
            m == nested_counts(*old(trie)),
            entries@.len() <= first.len(),
            entries@ == first.take(entries@.len() as int),
            forall|j: int|
                0 <= j < first.len() ==> m.contains_pair(
                    #[trigger] first[j].0@,
                    counts(first[j].1),
                ),
            forall|k: Seq<char>|
                m.dom().contains(k) ==> exists|j: int|
                    0 <= j < first.len() && #[trigger] first[j].0@ == k,
            forall|j: int, l: int| 0 <= j < l < first.len() ==> first[j].0@ != first[l].0@,
            forall|k: Seq<char>| #[trigger]
                nested_counts(*trie).dom().contains(k) <==> kept_from(
                    first,
                    entries@.len() as int,
                    k,
                ),
            forall|k: Seq<char>| #[trigger]
                nested_counts(*trie).dom().contains(k) ==> nested_counts(*trie)[k] == m[k],
            fits <==> forall|j: int|
                entries@.len() <= j < first.len() ==> #[trigger] surface_room(
                    m,
                    first[j].0@,
                    n as int,
                ),
        decreases entries@.len(),
    {
        let ghost at = entries@.len() - 1;
        let ghost now = nested_counts(*trie);
        let entry = entries.pop().unwrap();
        assert(entry == first[at]);
        assert(m.contains_pair(first[at].0@, counts(first[at].1)));
        if !room_for(&entry.1, n) {
            proof {
                let p = choose|p: Seq<char>| count_of(counts(entry.1), p) + n > u32::MAX;
                assert(count_of(inner_of(m, first[at].0@), p) + n > u32::MAX);
                assert(!surface_room(m, first[at].0@, n as int));
            }
            fits = false;
        } else {
            assert(surface_room(m, first[at].0@, n as int));
        }
        nested_put(trie, entry.0.as_str(), entry.1);
        proof {
            let after = nested_counts(*trie);
            assert forall|k: Seq<char>| #[trigger] after.dom().contains(k) <==> kept_from(
                first,
                at,
                k,
            ) by {
                if kept_from(first, at, k) {
                    let j = choose|j: int| at <= j < first.len() && #[trigger] first[j].0@ == k;
                    if j > at {
                        assert(kept_from(first, at + 1, k));
                        assert(now.dom().contains(k));
                    }
                }
                if after.dom().contains(k) && k != first[at].0@ {
                    assert(now.dom().contains(k));
                    assert(kept_from(first, at + 1, k));
                    let j = choose|j: int| at + 1 <= j < first.len() && #[trigger] first[j].0@ == k;
                    assert(at <= j < first.len() && first[j].0@ == k);
                }
                if k == first[at].0@ {
                    assert(at <= at < first.len() && first[at].0@ == k);
                }
            }
            assert forall|k: Seq<char>| #[trigger] after.dom().contains(k) implies after[k]
                == m[k] by {
                if k != first[at].0@ {
                    assert(now.dom().contains(k));
                }
            }
            assert(entries@ =~= first.take(at));
        }
    }
    proof {
        let after = nested_counts(*trie);
        assert forall|k: Seq<char>| after.dom().contains(k) <==> m.dom().contains(k) by {
            if m.dom().contains(k) {
                let j = choose|j: int| 0 <= j < first.len() && #[trigger] first[j].0@ == k;
                assert(kept_from(first, 0, k));
            }
            if after.dom().contains(k) {
                assert(kept_from(first, 0, k));
                let j = choose|j: int| 0 <= j < first.len() && #[trigger] first[j].0@ == k;
                assert(m.contains_pair(first[j].0@, counts(first[j].1)));
            }
        }
        assert(after =~= m);
        if fits {
            assert forall|s: Seq<char>, p: Seq<char>| count_of(inner_of(m, s), p) + n
                <= u32::MAX by {
                if m.dom().contains(s) {
                    let j = choose|j: int| 0 <= j < first.len() && #[trigger] first[j].0@ == s;
                    assert(surface_room(m, first[j].0@, n as int));
                }
            }
        } else {
            let j = choose|j: int|
                0 <= j < first.len() && !#[trigger] surface_room(m, first[j].0@, n as int);
            assert(!nested_room(m, n as int));
        }
    }
    fits
}

/// Counts each line of a file of links once, in the nested form, where no
/// count would pass the largest count if every line were counted for it,
/// and says whether it did; else the counts stay as they are.
pub fn try_count_lines_nested(
    trie: &mut qp_trie::Trie<
        qp_trie::wrapper::BString,
        qp_trie::Trie<qp_trie::wrapper::BString, u32>,
    >,
    lines: &Vec<String>,
) -> (done: bool)
    ensures
        done == nested_room(nested_counts(*old(trie)), lines@.len() as int),
        done ==> nested_counts(*final(trie)) == nested_tally(
            nested_counts(*old(trie)),
            line_pairs(texts(lines@)),
        ),
        !done ==> nested_counts(*final(trie)) == nested_counts(*old(trie)),
{
    if nested_room_for(trie, lines.len()) {
        count_lines_nested(trie, lines);
        true
    } else {
        false
    }
}

/// Counts each line of a file of links once, in the nested form.
pub fn count_lines_nested(
    trie: &mut qp_trie::Trie<
        qp_trie::wrapper::BString,
        qp_trie::Trie<qp_trie::wrapper::BString, u32>,
    >,
    lines: &Vec<String>,
)
    requires
        nested_room(nested_counts(*old(trie)), lines@.len() as int),
    ensures
        nested_counts(*final(trie)) == nested_tally(
            nested_counts(*old(trie)),
            line_pairs(texts(lines@)),
        ),
{
    let ghost want = line_pairs(texts(lines@));
    let mut links: Vec<(String, String)> = Vec::new();
    let mut i: usize = 0;
    while i < lines.len()
        invariant
            i <= lines.len(),
            links@.len() == i,
            want == line_pairs(texts(lines@)),
            forall|j: int| 0 <= j < i ==> ((#[trigger] links@[j]).0@, links@[j].1@) == want[j],
        decreases lines.len() - i,
    {
        links.push(tsv_line_fields(lines[i].as_str()));
        i += 1;
    }
    assert(pair_views(links@) =~= want);
    add_links(trie, &links);
}

} // verus!
