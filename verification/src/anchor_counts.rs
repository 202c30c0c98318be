//! Counting how often each surface text links to each page.
//!
//! The flat form keeps one count for each pair, under the key made of the
//! lower case of the surface, a tab and the page.

use crate::anchor::{parse_chars, parse_token, token_at, token_range, Anchor, AnchorModel};
use crate::number::{decimal, push_decimal};
use crate::page_iter::{page_texts, pages_of, texts_read};
use crate::xml::xml_events;
use crate::text::{
    append, chars_of, contains, has_infix, has_prefix, is_match_at, lowercase, matches_at, rfind,
    rfind_in, slice_of, starts_with, string_of, texts, to_lowercase, trim, trimmed,
};
use crate::page::anchor_models;
use crate::trie::{add_count, count_of, counts, no_counts, trie_entries, trie_get, trie_new};
use vstd::prelude::*;
use vstd::string::*;

verus! {

/// The surface and the page under which a link is counted: the lower case of
/// the trimmed text that shows, and the trimmed name of the page.
pub open spec fn formatted(a: AnchorModel) -> (Seq<char>, Seq<char>) {
    (lowercase(trim(a.shown())), trim(a.target()))
}

/// The key of a pair in the flat form.
pub open spec fn flat_key(surface: Seq<char>, page: Seq<char>) -> Seq<char> {
    surface + seq!['\t'] + page
}

/// The key under which a link is counted.
pub open spec fn key_of(a: AnchorModel) -> Seq<char> {
    flat_key(formatted(a).0, formatted(a).1)
}

/// The counts after each of `keys` has been counted once more, in order.
pub open spec fn tally(m: Map<Seq<char>, u32>, keys: Seq<Seq<char>>) -> Map<Seq<char>, u32>
    decreases keys.len(),
{
    if keys.len() == 0 {
        m
    } else {
        let before = tally(m, keys.drop_last());
        before.insert(keys.last(), (count_of(before, keys.last()) + 1) as u32)
    }
}

/// How often `key` stands in `keys`.
pub open spec fn occurrences(keys: Seq<Seq<char>>, key: Seq<char>) -> nat
    decreases keys.len(),
{
    if keys.len() == 0 {
        0
    } else {
        occurrences(keys.drop_last(), key) + if keys.last() == key {
            1nat
        } else {
            0nat
        }
    }
}

/// No count of `m` would pass the largest count if `n` were added to it.
pub open spec fn has_room(m: Map<Seq<char>, u32>, n: int) -> bool {
    forall|k: Seq<char>| count_of(m, k) + n <= u32::MAX
}

/// The counts of two maps added up, key by key.
pub open spec fn merged(a: Map<Seq<char>, u32>, b: Map<Seq<char>, u32>) -> Map<Seq<char>, u32> {
    Map::new(
        |k: Seq<char>| a.dom().contains(k) || b.dom().contains(k),
        |k: Seq<char>| (count_of(a, k) + count_of(b, k)) as u32,
    )
}

/// A tally adds to each count the number of times its key was counted, and
/// holds the keys that were held or counted.
pub proof fn lemma_tally(m: Map<Seq<char>, u32>, keys: Seq<Seq<char>>, key: Seq<char>)
    requires
        has_room(m, keys.len() as int),
    ensures
        count_of(tally(m, keys), key) == count_of(m, key) + occurrences(keys, key),
        occurrences(keys, key) <= keys.len(),
        tally(m, keys).dom().contains(key) <==> m.dom().contains(key) || occurrences(keys, key)
            > 0,
    decreases keys.len(),
{
    if keys.len() > 0 {
        let front = keys.drop_last();
        assert forall|k: Seq<char>| count_of(m, k) + front.len() <= u32::MAX by {
            assert(count_of(m, k) + keys.len() <= u32::MAX);
        }
        lemma_tally(m, front, key);
        lemma_tally(m, front, keys.last());
        assert(count_of(m, keys.last()) + keys.len() <= u32::MAX);
    }
}

/// Whether a token is counted: not one that begins with a colon or with `<`,
/// and not one that holds `User talk:` or `File talk:`.
pub open spec fn is_counted(token: Seq<char>) -> bool {
    &&& !starts_with(token, seq![':'])
    &&& !starts_with(token, seq!['<'])
    &&& !contains(token, "User talk:"@)
    &&& !contains(token, "File talk:"@)
}

/// The key counted for the link that opens at `begin`, where `[[` stands.
pub open spec fn counted_at(text: Seq<char>, begin: int) -> Option<Seq<char>> {
    match token_at(text, begin) {
        Some(t) => if is_counted(t) && trim(t).len() > 0 {
            Some(key_of(parse_token(t)))
        } else {
            None
        },
        None => None,
    }
}

/// The keys counted for the links of `text` from position `from` on, in
/// order. The whole text is read.
pub open spec fn keys_from(text: Seq<char>, from: int) -> Seq<Seq<char>>
    decreases text.len() - from,
{
    if from < 0 || from + 2 > text.len() {
        Seq::empty()
    } else if matches_at(text, seq!['[', '['], from) {
        match counted_at(text, from) {
            Some(k) => seq![k] + keys_from(text, from + 2),
            None => keys_from(text, from + 2),
        }
    } else {
        keys_from(text, from + 1)
    }
}

/// The surface and the page under which a link is counted.
pub fn format_anchor(anchor: Anchor) -> (r: (String, String))
    ensures
        (r.0@, r.1@) == formatted(anchor@),
{
    format_anchor_of(&anchor)
}

/// The surface and the page under which a link is counted.
pub fn format_anchor_of(anchor: &Anchor) -> (r: (String, String))
    ensures
        (r.0@, r.1@) == formatted(anchor@),
{
    let surface = string_of(&trimmed(&chars_of(anchor.shown().as_str())));
    let page = string_of(&trimmed(&chars_of(anchor.target().as_str())));
    (to_lowercase(surface.as_str()), page)
}

/// The key of a pair in the flat form.
pub fn flat_key_of(surface: &str, page: &str) -> (key: String)
    ensures
        key@ == flat_key(surface@, page@),
{
    proof {
        reveal_strlit("\t");
        assert("\t"@ =~= seq!['\t']);
    }
    String::from_str(surface).concat("\t").concat(page)
}

/// The key under which a link is counted.
pub fn anchor_key(anchor: &Anchor) -> (key: String)
    ensures
        key@ == key_of(anchor@),
{
    let (surface, page) = format_anchor_of(anchor);
    flat_key_of(surface.as_str(), page.as_str())
}

/// Whether a token is counted.
pub fn is_counted_token(token: &Vec<char>) -> (b: bool)
    ensures
        b == is_counted(token@),
{
    let colon: Vec<char> = vec![':'];
    let angle: Vec<char> = vec!['<'];
    assert(colon@ =~= seq![':']);
    assert(angle@ =~= seq!['<']);
    !has_prefix(token, &colon) && !has_prefix(token, &angle) && !has_infix(
        token,
        &chars_of("User talk:"),
    ) && !has_infix(token, &chars_of("File talk:"))
}

/// The keys counted for the links of a text, in order.
pub fn flat_keys(text: &str) -> (r: Vec<String>)
    ensures
        texts(r@) == keys_from(text@, 0),
{
    let body = chars_of(text);
    let open: Vec<char> = vec!['[', '['];
    assert(open@ =~= seq!['[', '[']);
    let mut out: Vec<String> = Vec::new();
    let mut i: usize = 0;
    assert(texts(out@) =~= Seq::empty());
    while body.len() >= 2 && i <= body.len() - 2
        invariant
            open@ == seq!['[', '['],
            keys_from(body@, 0) == texts(out@) + keys_from(body@, i as int),
        decreases body.len() - i,
    {
        if is_match_at(&body, &open, i) {
            match token_range(&body, i) {
                Some((from, to)) => {
                    let token = slice_of(&body, from, to);
                    if is_counted_token(&token) && trimmed(&token).len() > 0 {
                        let key = anchor_key(&parse_chars(&token));
                        let ghost before = out@;
                        out.push(key);
                        assert(texts(out@) =~= texts(before).push(key@));
                        assert(texts(before) + (seq![key@] + keys_from(body@, i + 2)) =~= texts(
                            out@,
                        ) + keys_from(body@, i + 2));
                    }
                },
                None => {},
            }
            i += 2;
        } else {
            i += 1;
        }
    }
    assert(texts(out@) + Seq::<Seq<char>>::empty() =~= texts(out@));
    out
}

/// Counts each of `keys` once more.
pub fn add_keys(trie: &mut qp_trie::Trie<qp_trie::wrapper::BString, u32>, keys: &Vec<String>)
    requires
        has_room(counts(*old(trie)), keys@.len() as int),
    ensures
        counts(*final(trie)) == tally(counts(*old(trie)), texts(keys@)),
{
    let ghost all = texts(keys@);
    let mut i: usize = 0;
    assert(all.take(0) =~= Seq::<Seq<char>>::empty());
    while i < keys.len()
        invariant
            i <= keys.len(),
            all == texts(keys@),
            counts(*trie) == tally(counts(*old(trie)), all.take(i as int)),
            has_room(counts(*trie), keys@.len() - i),
        decreases keys.len() - i,
    {
        let ghost before = counts(*trie);
        assert(count_of(before, keys@[i as int]@) + (keys@.len() - i) <= u32::MAX);
        add_count(trie, keys[i].as_str(), 1);
        proof {
            assert(all.take(i + 1).drop_last() =~= all.take(i as int));
            assert(all.take(i + 1).last() == keys@[i as int]@);
            assert forall|k: Seq<char>| count_of(counts(*trie), k) + (keys@.len() - (i + 1))
                <= u32::MAX by {
                assert(count_of(before, k) + (keys@.len() - i) <= u32::MAX);
            }
        }
        i += 1;
    }
    assert(all.take(keys@.len() as int) =~= all);
}

/// The keys under which the links `anchors` are counted, in order.
pub open spec fn keys_of(anchors: Seq<AnchorModel>) -> Seq<Seq<char>> {
    anchors.map_values(|a: AnchorModel| key_of(a))
}

/// Counts each of the links of a page once more.
pub fn count_anchors(
    trie: &mut qp_trie::Trie<qp_trie::wrapper::BString, u32>,
    anchors: &Vec<Anchor>,
)
    requires
        has_room(counts(*old(trie)), anchors@.len() as int),
    ensures
        counts(*final(trie)) == tally(
            counts(*old(trie)),
            keys_of(anchor_models(anchors@)),
        ),
{
    let ghost want = keys_of(anchor_models(anchors@));
    let mut keys: Vec<String> = Vec::new();
    let mut i: usize = 0;
    while i < anchors.len()
        invariant
            i <= anchors.len(),
            keys@.len() == i,
            want == keys_of(anchor_models(anchors@)),
            forall|j: int| 0 <= j < i ==> (#[trigger] keys@[j])@ == want[j],
        decreases anchors.len() - i,
    {
        keys.push(anchor_key(&anchors[i]));
        i += 1;
    }
    assert(texts(keys@) =~= want);
    add_keys(trie, &keys);
}

/// Counts each of the links of a page once more, where no count would pass
/// the largest count if every link were counted for it, and says whether
/// it did; else the trie stays as it is.
pub fn try_count_anchors(
    trie: &mut qp_trie::Trie<qp_trie::wrapper::BString, u32>,
    anchors: &Vec<Anchor>,
) -> (done: bool)
    ensures
        done == has_room(counts(*old(trie)), anchors@.len() as int),
        done ==> counts(*final(trie)) == tally(
            counts(*old(trie)),
            keys_of(anchor_models(anchors@)),
        ),
        !done ==> counts(*final(trie)) == counts(*old(trie)),
{
    if room_for(trie, anchors.len()) {
        count_anchors(trie, anchors);
        true
    } else {
        false
    }
}

/// One of the first `n` entries has the key `k`.
pub open spec fn seen(entries: Seq<(String, u32)>, n: int, k: Seq<char>) -> bool {
    exists|j: int| 0 <= j < n && #[trigger] entries[j].0@ == k
}

/// Adds the counts of `from` to those of `into`, key by key.
pub fn fold_counts(
    into: &mut qp_trie::Trie<qp_trie::wrapper::BString, u32>,
    from: &qp_trie::Trie<qp_trie::wrapper::BString, u32>,
)
    requires
        forall|k: Seq<char>|
            count_of(counts(*old(into)), k) + count_of(counts(*from), k) <= u32::MAX,
    ensures
        counts(*final(into)) == merged(counts(*old(into)), counts(*from)),
{
    let entries = trie_entries(from);
    let ghost a = counts(*old(into));
    let ghost b = counts(*from);
    let mut i: usize = 0;
    while i < entries.len()
        invariant
            i <= entries.len(),
            a == counts(*old(into)),
            b == counts(*from),
            forall|k: Seq<char>| count_of(a, k) + count_of(b, k) <= u32::MAX,
            forall|j: int|
                0 <= j < entries@.len() ==> b.contains_pair(#[trigger] entries@[j].0@, entries@[j].1),
            forall|j: int, l: int|
                0 <= j < l < entries@.len() ==> entries@[j].0@ != entries@[l].0@,
            forall|k: Seq<char>|
                b.dom().contains(k) ==> seen(entries@, entries@.len() as int, k),
            forall|k: Seq<char>| #[trigger]
                counts(*into).dom().contains(k) <==> a.dom().contains(k) || seen(
                    entries@,
                    i as int,
                    k,
                ),
            forall|k: Seq<char>| #[trigger]
                count_of(counts(*into), k) == count_of(a, k) + (if seen(entries@, i as int, k) {
                    count_of(b, k)
                } else {
                    0
                }),
        decreases entries.len() - i,
    {
        let ghost cur = counts(*into);
        let ghost key = entries@[i as int].0@;
        proof {
            assert(b.contains_pair(key, entries@[i as int].1));
            assert(count_of(a, key) + count_of(b, key) <= u32::MAX);
            if seen(entries@, i as int, key) {
                let j = choose|j: int| 0 <= j < i && #[trigger] entries@[j].0@ == key;
                assert(entries@[j].0@ != entries@[i as int].0@);
            }
            assert(count_of(cur, key) == count_of(a, key));
        }
        add_count(into, entries[i].0.as_str(), entries[i].1);
        proof {
            let now = counts(*into);
            assert forall|k: Seq<char>| seen(entries@, i + 1, k) <==> (k == key || seen(
                entries@,
                i as int,
                k,
            )) by {
                if seen(entries@, i + 1, k) {
                    let j = choose|j: int| 0 <= j < i + 1 && #[trigger] entries@[j].0@ == k;
                    if j < i {
                        assert(seen(entries@, i as int, k));
                    }
                }
                if k == key {
                    assert(entries@[i as int].0@ == k);
                }
                if seen(entries@, i as int, k) {
                    let j = choose|j: int| 0 <= j < i && #[trigger] entries@[j].0@ == k;
                    assert(0 <= j < i + 1 && entries@[j].0@ == k);
                }
            }
            assert forall|k: Seq<char>| #[trigger]
                now.dom().contains(k) <==> a.dom().contains(k) || seen(entries@, i + 1, k) by {
                assert(cur.dom().contains(k) <==> a.dom().contains(k) || seen(
                    entries@,
                    i as int,
                    k,
                ));
            }
            assert forall|k: Seq<char>| #[trigger]
                count_of(now, k) == count_of(a, k) + (if seen(entries@, i + 1, k) {
                    count_of(b, k)
                } else {
                    0
                }) by {
                assert(count_of(cur, k) == count_of(a, k) + (if seen(entries@, i as int, k) {
                    count_of(b, k)
                } else {
                    0
                }));
                if k == key {
                    assert(count_of(now, k) == count_of(cur, key) + entries@[i as int].1);
                    assert(count_of(b, key) == entries@[i as int].1);
                }
            }
        }
        i += 1;
    }
    proof {
        let now = counts(*into);
        let want = merged(a, b);
        assert forall|k: Seq<char>| seen(entries@, i as int, k) <==> b.dom().contains(k) by {
            if seen(entries@, i as int, k) {
                let j = choose|j: int| 0 <= j < i && #[trigger] entries@[j].0@ == k;
                assert(b.contains_pair(entries@[j].0@, entries@[j].1));
            }
        }
        assert forall|k: Seq<char>| now.dom().contains(k) <==> want.dom().contains(k) by {
            assert(now.dom().contains(k) <==> a.dom().contains(k) || seen(entries@, i as int, k));
        }
        assert forall|k: Seq<char>| now.dom().contains(k) implies now[k] == want[k] by {
            assert(count_of(now, k) == count_of(a, k) + (if seen(entries@, i as int, k) {
                count_of(b, k)
            } else {
                0
            }));
        }
        assert(now =~= want);
    }
}

/// Counting one list of keys and then another is counting the two lists
/// joined.
pub proof fn lemma_tally_concat(m: Map<Seq<char>, u32>, a: Seq<Seq<char>>, b: Seq<Seq<char>>)
    ensures
        tally(tally(m, a), b) == tally(m, a + b),
    decreases b.len(),
{
    if b.len() == 0 {
        assert(a + b =~= a);
    } else {
        lemma_tally_concat(m, a, b.drop_last());
        assert((a + b).drop_last() =~= a + b.drop_last());
    }
}

/// Counts links in the flat form.
pub struct TrieBuilderFlat;

impl TrieBuilderFlat {
    /// Adds the counts of `from` to those of `into`, key by key.
    pub fn fold(
        into: &mut qp_trie::Trie<qp_trie::wrapper::BString, u32>,
        from: qp_trie::Trie<qp_trie::wrapper::BString, u32>,
    )
        requires
            forall|k: Seq<char>|
                count_of(counts(*old(into)), k) + count_of(counts(from), k) <= u32::MAX,
        ensures
            counts(*final(into)) == merged(counts(*old(into)), counts(from)),
    {
        fold_counts(into, &from)
    }

    /// The counts of the links in the given texts of pages: each text is read
    /// whole, and each of its counted links is counted once. `None` exactly
    /// where there are more links than a count can hold.
    pub fn count_pages(pages: &Vec<String>) -> (r: Option<
        qp_trie::Trie<qp_trie::wrapper::BString, u32>,
    >)
        ensures
            counted_pages(texts(pages@), r),
    {
        let ghost all_pages = texts(pages@);
        let mut trie = trie_new();
        let mut used: usize = 0;
        let mut i: usize = 0;
        assert(all_pages.take(0) =~= Seq::<Seq<char>>::empty());
        while i < pages.len()
            invariant
                i <= pages.len(),
                all_pages == texts(pages@),
                counts(trie) == tally(no_counts(), keys_of_pages(all_pages.take(i as int))),
                used == keys_of_pages(all_pages.take(i as int)).len(),
                used <= u32::MAX,
                forall|k: Seq<char>| count_of(counts(trie), k) <= used,
            decreases pages.len() - i,
        {
            let keys = flat_keys(pages[i].as_str());
            let ghost before = keys_of_pages(all_pages.take(i as int));
            proof {
                assert(all_pages.take(i + 1).drop_last() =~= all_pages.take(i as int));
                assert(all_pages.take(i + 1).last() == pages@[i as int]@);
                assert(keys_of_pages(all_pages.take(i + 1)) == before + texts(keys@));
            }
            if keys.len() > u32::MAX as usize - used {
                proof {
                    lemma_keys_of_pages_grow(all_pages, i + 1);
                }
                return None;
            }
            proof {
                assert forall|k: Seq<char>|
                    count_of(counts(trie), k) + keys@.len() <= u32::MAX by {
                    assert(count_of(counts(trie), k) <= used);
                }
                assert forall|k: Seq<char>|
                    count_of(tally(counts(trie), texts(keys@)), k) <= used + keys@.len() by {
                    lemma_tally(counts(trie), texts(keys@), k);
                    assert(count_of(counts(trie), k) <= used);
                }
                lemma_tally_concat(no_counts(), before, texts(keys@));
            }
            add_keys(&mut trie, &keys);
            used = used + keys.len();
            i += 1;
        }
        assert(all_pages.take(pages@.len() as int) =~= all_pages);
        Some(trie)
    }

    /// The counts of the links in the pages of an XML text: what counting
    /// gives for the texts of the pages that are not passed over.
    pub fn extract(xml: &str) -> (r: Option<qp_trie::Trie<qp_trie::wrapper::BString, u32>>)
        ensures
            counted_pages(texts_read(pages_of(xml_events(xml@))), r),
    {
        let found = page_texts(xml);
        TrieBuilderFlat::count_pages(&found)
    }
}

/// The keys counted for the links of the given texts of pages, page after
/// page.
pub open spec fn keys_of_pages(pages: Seq<Seq<char>>) -> Seq<Seq<char>>
    decreases pages.len(),
{
    if pages.len() == 0 {
        Seq::empty()
    } else {
        keys_of_pages(pages.drop_last()) + keys_from(pages.last(), 0)
    }
}

/// `r` is what counting gives for the given texts of pages: the tally of
/// their keys, and nothing exactly where the keys are more than a count can
/// hold.
pub open spec fn counted_pages(
    pages: Seq<Seq<char>>,
    r: Option<qp_trie::Trie<qp_trie::wrapper::BString, u32>>,
) -> bool {
    match r {
        Some(trie) => keys_of_pages(pages).len() <= u32::MAX && counts(trie) == tally(
            no_counts(),
            keys_of_pages(pages),
        ),
        None => keys_of_pages(pages).len() > u32::MAX,
    }
}

/// The keys of some of the first pages are no more than the keys of all.
pub proof fn lemma_keys_of_pages_grow(pages: Seq<Seq<char>>, n: int)
    requires
        0 <= n <= pages.len(),
    ensures
        keys_of_pages(pages.take(n)).len() <= keys_of_pages(pages).len(),
    decreases pages.len() - n,
{
    if n < pages.len() {
        lemma_keys_of_pages_grow(pages, n + 1);
        assert(pages.take(n + 1).drop_last() =~= pages.take(n));
    } else {
        assert(pages.take(n) =~= pages);
    }
}

/// The field behind the last tab of a line, or the whole line.
pub open spec fn last_field(line: Seq<char>) -> Seq<char> {
    match rfind(line, seq!['\t']) {
        Some(i) => line.skip(i + 1),
        None => line,
    }
}

/// The field before the last field of a line: empty where the line has one
/// field only.
pub open spec fn field_before_last(line: Seq<char>) -> Seq<char> {
    match rfind(line, seq!['\t']) {
        Some(i) => last_field(line.take(i)),
        None => Seq::empty(),
    }
}

/// The key counted for a line of a file of links: its last field is the
/// page, the field before it the surface.
pub open spec fn line_key(line: Seq<char>) -> Seq<char> {
    flat_key(lowercase(trim(field_before_last(line))), trim(last_field(line)))
}

/// The key counted for a line of a file of links.
pub fn tsv_line_key(line: &str) -> (key: String)
    ensures
        key@ == line_key(line@),
{
    let (surface, page) = tsv_line_fields(line);
    flat_key_of(surface.as_str(), page.as_str())
}

/// The field before the last field of a line, and its last field.
pub fn tsv_raw_fields(line: &str) -> (r: (Vec<char>, Vec<char>))
    ensures
        r.0@ == field_before_last(line@),
        r.1@ == last_field(line@),
{
    let chars = chars_of(line);
    let tab: Vec<char> = vec!['\t'];
    assert(tab@ =~= seq!['\t']);
    match rfind_in(&chars, &tab) {
        Some(i) => {
            let head = slice_of(&chars, 0, i);
            assert(chars@.subrange(0, i as int) =~= chars@.take(i as int));
            assert(chars@.subrange(i + 1, chars.len() as int) =~= chars@.skip(i + 1));
            let second = match rfind_in(&head, &tab) {
                Some(j) => {
                    assert(head@.subrange(j + 1, head.len() as int) =~= head@.skip(j + 1));
                    slice_of(&head, j + 1, head.len())
                },
                None => head,
            };
            (second, slice_of(&chars, i + 1, chars.len()))
        },
        None => (Vec::new(), chars),
    }
}

/// The surface and the page counted for a line of a file of links.
pub fn tsv_line_fields(line: &str) -> (r: (String, String))
    ensures
        r.0@ == lowercase(trim(field_before_last(line@))),
        r.1@ == trim(last_field(line@)),
{
    let (before, last) = tsv_raw_fields(line);
    let surface = to_lowercase(string_of(&trimmed(&before)).as_str());
    let page = string_of(&trimmed(&last));
    (surface, page)
}

/// The token of the link that a line of a file of links stands for: the
/// page, a bar, and the surface, as the fields hold them.
pub open spec fn line_token(line: Seq<char>) -> Seq<char> {
    last_field(line) + seq!['|'] + field_before_last(line)
}

/// Whether a line of a file of links is counted: its link is one that is
/// counted where the links are taken from the pages.
pub open spec fn is_counted_line(line: Seq<char>) -> bool {
    is_counted(line_token(line))
}

/// Whether a line of a file of links is counted.
pub fn is_counted_tsv_line(line: &str) -> (b: bool)
    ensures
        b == is_counted_line(line@),
{
    let (surface, page) = tsv_raw_fields(line);
    let mut token = page;
    token.push('|');
    append(&mut token, &surface);
    assert(token@ =~= line_token(line@));
    is_counted_token(&token)
}

/// The keys counted for the lines `lines`, in order: one for each line that
/// is counted.
pub open spec fn line_keys(lines: Seq<Seq<char>>) -> Seq<Seq<char>>
    decreases lines.len(),
{
    if lines.len() == 0 {
        Seq::empty()
    } else if is_counted_line(lines.last()) {
        line_keys(lines.drop_last()).push(line_key(lines.last()))
    } else {
        line_keys(lines.drop_last())
    }
}

/// There are no more keys than lines.
pub proof fn lemma_line_keys_len(lines: Seq<Seq<char>>)
    ensures
        line_keys(lines).len() <= lines.len(),
    decreases lines.len(),
{
    if lines.len() > 0 {
        lemma_line_keys_len(lines.drop_last());
    }
}

/// Whether `n` can be added to every count of the trie: no count would pass
/// the largest count.
pub fn room_for(trie: &qp_trie::Trie<qp_trie::wrapper::BString, u32>, n: usize) -> (b: bool)
    ensures
        b == has_room(counts(*trie), n as int),
{
    let ghost m = counts(*trie);
    if n > u32::MAX as usize {
        assert(!has_room(m, n as int)) by {
            assert(count_of(m, Seq::<char>::empty()) + n > u32::MAX);
        }
        return false;
    }
    let entries = trie_entries(trie);
    let mut i: usize = 0;
    while i < entries.len()
        invariant
            i <= entries.len(),
            n <= u32::MAX,
            m == counts(*trie),
            forall|j: int|
                0 <= j < entries@.len() ==> m.contains_pair(#[trigger] entries@[j].0@, entries@[j].1),
            forall|j: int| 0 <= j < i ==> (#[trigger] entries@[j]).1 + n <= u32::MAX,
        decreases entries.len() - i,
    {
        if entries[i].1 as usize > u32::MAX as usize - n {
            proof {
                let k = entries@[i as int].0@;
                assert(m.contains_pair(k, entries@[i as int].1));
                assert(count_of(m, k) + n > u32::MAX);
            }
            return false;
        }
        i += 1;
    }
    proof {
        assert forall|k: Seq<char>| count_of(m, k) + n <= u32::MAX by {
            if m.dom().contains(k) {
                let j = choose|j: int| 0 <= j < entries@.len() && #[trigger] entries@[j].0@ == k;
                assert(m.contains_pair(entries@[j].0@, entries@[j].1));
                assert(entries@[j].1 + n <= u32::MAX);
            }
        }
    }
    true
}

/// Counts each line of a file of links once, where no count would pass the
/// largest count if every line were counted for it, and says whether it
/// did; else the trie stays as it is.
pub fn try_count_lines(
    trie: &mut qp_trie::Trie<qp_trie::wrapper::BString, u32>,
    lines: &Vec<String>,
) -> (done: bool)
    ensures
        done == has_room(counts(*old(trie)), lines@.len() as int),
        done ==> counts(*final(trie)) == tally(counts(*old(trie)), line_keys(texts(lines@))),
        !done ==> counts(*final(trie)) == counts(*old(trie)),
{
    if room_for(trie, lines.len()) {
        count_lines(trie, lines);
        true
    } else {
        false
    }
}

/// Counts each line of a file of links once that is counted: the filter is
/// the one for the links that are taken from the pages.
pub fn count_lines(trie: &mut qp_trie::Trie<qp_trie::wrapper::BString, u32>, lines: &Vec<String>)
    requires
        has_room(counts(*old(trie)), lines@.len() as int),
    ensures
        counts(*final(trie)) == tally(counts(*old(trie)), line_keys(texts(lines@))),
{
    let ghost all = texts(lines@);
    let mut keys: Vec<String> = Vec::new();
    let mut i: usize = 0;
    assert(all.take(0) =~= Seq::<Seq<char>>::empty());
    while i < lines.len()
        invariant
            i <= lines.len(),
            all == texts(lines@),
            texts(keys@) == line_keys(all.take(i as int)),
        decreases lines.len() - i,
    {
        let ghost before = keys@;
        assert(all.take(i + 1).drop_last() =~= all.take(i as int));
        assert(all.take(i + 1).last() == lines@[i as int]@);
        if is_counted_tsv_line(lines[i].as_str()) {
            let key = tsv_line_key(lines[i].as_str());
            keys.push(key);
            assert(texts(keys@) =~= texts(before).push(key@));
        }
        i += 1;
    }
    proof {
        assert(all.take(lines@.len() as int) =~= all);
        lemma_line_keys_len(all);
        assert(texts(keys@).len() == keys@.len());
        assert forall|k: Seq<char>| count_of(counts(*trie), k) + keys@.len() <= u32::MAX by {
            assert(count_of(counts(*trie), k) + lines@.len() <= u32::MAX);
        }
    }
    add_keys(trie, &keys);
}

/// The line that reports the count of a key: the key, a tab, the count and
/// a line feed.
pub open spec fn count_line(key: Seq<char>, count: u32) -> Seq<char> {
    key + seq!['\t'] + decimal(count as nat) + seq!['\n']
}

/// The line that reports the count of a key.
pub fn count_line_of(key: &str, count: u32) -> (line: String)
    ensures
        line@ == count_line(key@, count),
{
    let mut out = chars_of(key);
    out.push('\t');
    push_decimal(&mut out, count as u64);
    out.push('\n');
    assert(out@ =~= count_line(key@, count));
    string_of(&out)
}

/// `line` reports a count above one that `m` holds.
pub open spec fn reports(m: Map<Seq<char>, u32>, line: Seq<char>) -> bool {
    exists|k: Seq<char>| #[trigger] m.dom().contains(k) && m[k] > 1 && line == count_line(k, m[k])
}

/// `line` is one of `lines`.
pub open spec fn has_line(lines: Seq<String>, line: Seq<char>) -> bool {
    exists|i: int| 0 <= i < lines.len() && #[trigger] lines[i]@ == line
}

/// `lines` report the counts above one, one line for each such key: they
/// are the lines of the keys `keys`, in order, which are the keys with a
/// count above one, each once.
pub open spec fn is_report(m: Map<Seq<char>, u32>, keys: Seq<Seq<char>>, lines: Seq<Seq<char>>) -> bool {
    &&& forall|i: int, j: int| 0 <= i < j < keys.len() ==> keys[i] != keys[j]
    &&& forall|i: int| 0 <= i < keys.len() ==> m.dom().contains(#[trigger] keys[i]) && m[keys[i]] > 1
    &&& forall|k: Seq<char>| #[trigger]
        m.dom().contains(k) && m[k] > 1 ==> exists|i: int| 0 <= i < keys.len() && #[trigger] keys[i] == k
    &&& lines.len() == keys.len()
    &&& forall|i: int| 0 <= i < keys.len() ==> #[trigger] lines[i] == count_line(keys[i], m[keys[i]])
}

/// The lines that report the counts above one: one line for each such key,
/// and no other line.
pub fn write_anchor_counts(anchor_counts: &qp_trie::Trie<qp_trie::wrapper::BString, u32>) -> (r:
    Vec<String>)
    ensures
        exists|keys: Seq<Seq<char>>| #[trigger] is_report(counts(*anchor_counts), keys, texts(r@)),
        forall|i: int| 0 <= i < r@.len() ==> reports(counts(*anchor_counts), #[trigger] r@[i]@),
        forall|k: Seq<char>| #[trigger]
            counts(*anchor_counts).dom().contains(k) && counts(*anchor_counts)[k] > 1 ==> has_line(
                r@,
                count_line(k, counts(*anchor_counts)[k]),
            ),
{
    let entries = trie_entries(anchor_counts);
    let ghost m = counts(*anchor_counts);
    let ghost mut keys: Seq<Seq<char>> = Seq::empty();
    let ghost mut at: Seq<int> = Seq::empty();
    let mut out: Vec<String> = Vec::new();
    let mut i: usize = 0;
    while i < entries.len()
        invariant
            i <= entries.len(),
            m == counts(*anchor_counts),
            forall|j: int|
                0 <= j < entries@.len() ==> m.contains_pair(#[trigger] entries@[j].0@, entries@[j].1),
            forall|j: int, l: int| 0 <= j < l < entries@.len() ==> entries@[j].0@ != entries@[l].0@,
            keys.len() == out@.len(),
            at.len() == out@.len(),
            forall|l: int| 0 <= l < at.len() ==> 0 <= #[trigger] at[l] < i,
            forall|l: int, n: int| 0 <= l < n < at.len() ==> at[l] < at[n],
            forall|l: int|
                0 <= l < keys.len() ==> #[trigger] keys[l] == entries@[at[l]].0@ && entries@[at[l]].1
                    > 1 && out@[l]@ == count_line(keys[l], entries@[at[l]].1),
            forall|j: int|
                0 <= j < i && entries@[j].1 > 1 ==> exists|l: int|
                    0 <= l < at.len() && #[trigger] at[l] == j,
        decreases entries.len() - i,
    {
        if entries[i].1 > 1 {
            let line = count_line_of(entries[i].0.as_str(), entries[i].1);
            let ghost before = at;
            out.push(line);
            proof {
                keys = keys.push(entries@[i as int].0@);
                at = at.push(i as int);
                assert forall|j: int| 0 <= j < i + 1 && entries@[j].1 > 1 implies exists|l: int|
                    0 <= l < at.len() && #[trigger] at[l] == j by {
                    if j < i {
                        let l = choose|l: int| 0 <= l < before.len() && #[trigger] before[l] == j;
                        assert(at[l] == j);
                    } else {
                        assert(at[before.len() as int] == j);
                    }
                }
            }
        }
        i += 1;
    }
    proof {
        let lines = texts(out@);
        assert forall|a: int, b: int| 0 <= a < b < keys.len() implies keys[a] != keys[b] by {
            assert(at[a] < at[b]);
        }
        assert forall|l: int| 0 <= l < keys.len() implies m.dom().contains(#[trigger] keys[l])
            && m[keys[l]] > 1 && lines[l] == count_line(keys[l], m[keys[l]]) by {
            assert(m.contains_pair(entries@[at[l]].0@, entries@[at[l]].1));
        }
        assert forall|k: Seq<char>| #[trigger] m.dom().contains(k) && m[k] > 1 implies exists|
            l: int,
        | 0 <= l < keys.len() && #[trigger] keys[l] == k by {
            let j = choose|j: int| 0 <= j < entries@.len() && #[trigger] entries@[j].0@ == k;
            assert(m.contains_pair(entries@[j].0@, entries@[j].1));
            let l = choose|l: int| 0 <= l < at.len() && #[trigger] at[l] == j;
            assert(keys[l] == k);
        }
        assert(is_report(m, keys, lines));
        assert forall|l: int| 0 <= l < out@.len() implies reports(m, #[trigger] out@[l]@) by {
            assert(m.dom().contains(keys[l]) && m[keys[l]] > 1);
            assert(lines[l] == out@[l]@);
        }
        assert forall|k: Seq<char>| #[trigger] m.dom().contains(k) && m[k] > 1 implies has_line(
            out@,
            count_line(k, m[k]),
        ) by {
            let l = choose|l: int| 0 <= l < keys.len() && #[trigger] keys[l] == k;
            assert(lines[l] == out@[l]@);
        }
    }
    out
}

/// Whether the counts of `from` can be added to those of `into`: no sum
/// would pass the largest count.
pub fn can_fold(
    into: &qp_trie::Trie<qp_trie::wrapper::BString, u32>,
    from: &qp_trie::Trie<qp_trie::wrapper::BString, u32>,
) -> (b: bool)
    ensures
        b == forall|k: Seq<char>|
            count_of(counts(*into), k) + count_of(counts(*from), k) <= u32::MAX,
{
    let entries = trie_entries(from);
    let ghost a = counts(*into);
    let ghost m = counts(*from);
    let mut i: usize = 0;
    while i < entries.len()
        invariant
            i <= entries.len(),
            a == counts(*into),
            m == counts(*from),
            forall|j: int|
                0 <= j < entries@.len() ==> m.contains_pair(#[trigger] entries@[j].0@, entries@[j].1),
            forall|j: int|
                0 <= j < i ==> count_of(a, #[trigger] entries@[j].0@) + entries@[j].1 <= u32::MAX,
        decreases entries.len() - i,
    {
        let now: u32 = match trie_get(into, entries[i].0.as_str()) {
            Some(c) => c,
            None => 0,
        };
        if now > u32::MAX - entries[i].1 {
            proof {
                let k = entries@[i as int].0@;
                assert(m.contains_pair(k, entries@[i as int].1));
                assert(count_of(a, k) + count_of(m, k) > u32::MAX);
            }
            return false;
        }
        i += 1;
    }
    proof {
        assert forall|k: Seq<char>| count_of(a, k) + count_of(m, k) <= u32::MAX by {
            if m.dom().contains(k) {
                let j = choose|j: int| 0 <= j < entries@.len() && #[trigger] entries@[j].0@ == k;
                assert(m.contains_pair(entries@[j].0@, entries@[j].1));
                assert(count_of(a, entries@[j].0@) + entries@[j].1 <= u32::MAX);
            }
        }
    }
    true
}

/// Adds the counts of `from` to those of `into` where no sum would pass the
/// largest count, and says whether it did; else `into` stays as it is.
pub fn try_fold(
    into: &mut qp_trie::Trie<qp_trie::wrapper::BString, u32>,
    from: &qp_trie::Trie<qp_trie::wrapper::BString, u32>,
) -> (done: bool)
    ensures
        done == forall|k: Seq<char>|
            count_of(counts(*old(into)), k) + count_of(counts(*from), k) <= u32::MAX,
        done ==> counts(*final(into)) == merged(counts(*old(into)), counts(*from)),
        !done ==> counts(*final(into)) == counts(*old(into)),
{
    if can_fold(into, from) {
        fold_counts(into, from);
        true
    } else {
        false
    }
}

} // verus!
