//! The counts of the flat form as a sorted map, and the surface forms that
//! are read from it.

use crate::order::{is_increasing, lemma_sorted_distinct_is_increasing};
use crate::sorting::sort_by_key;
use crate::surface_form::{
    all_paired, paired, pairs, total, SurfaceForm, SurfaceFormStoreError,
};
use crate::text::{chars_of, find, find_in, string_of};
use crate::trie::{counts, trie_entries};
use vstd::prelude::*;
use vstd::string::*;

verus! {

/// The error of `fst`, which is carried and never looked into.
#[verifier::external_type_specification]
#[verifier::external_body]
pub struct ExFstError(fst::Error);

/// The map of `fst`, which is carried and never looked into.
#[verifier::external_type_specification]
#[verifier::external_body]
pub struct ExFstMap(fst::Map);

/// The bytes of the map that is built from the given entries in this order.
pub uninterp spec fn fst_bytes(entries: Seq<(Seq<char>, u64)>) -> Seq<u8>;

/// The value that a map holds for each of its keys.
pub uninterp spec fn map_entries(map: fst::Map) -> Map<Seq<u8>, u64>;

/// What reading a map from bytes gives: the entries of the map, or the
/// message of the failure where the bytes are no map.
pub uninterp spec fn read_map(bytes: Seq<u8>) -> Result<Map<Seq<u8>, u64>, Seq<char>>;

/// What a search of the entries with a regular expression gives: the
/// matching entries in the order of their keys, or the message of the failure.
pub uninterp spec fn regex_matches(entries: Map<Seq<u8>, u64>, pattern: Seq<char>) -> Result<
    Seq<(Seq<char>, u64)>,
    Seq<char>,
>;

/// What the outcome of a search stands for.
pub open spec fn found_model(r: Result<Vec<(String, u64)>, String>) -> Result<
    Seq<(Seq<char>, u64)>,
    Seq<char>,
> {
    match r {
        Ok(found) => Ok(pairs(found@)),
        Err(e) => Err(e@),
    }
}

/// Builds a map in memory from the entries in the given order.
///
/// Calls `fst::MapBuilder::memory`, `extend_iter` and `into_inner`. The
/// builder refuses a key that is not greater than the key before it, and
/// fails on nothing else while it writes to memory; so entries with
/// increasing keys are accepted. The bytes depend on the entries alone and
/// are named `fst_bytes`.
#[verifier::external_body]
fn fst_build(entries: &Vec<(String, u64)>) -> (r: Result<Vec<u8>, fst::Error>)
    ensures
        r matches Ok(bytes) ==> bytes@ == fst_bytes(pairs(entries@)),
        is_increasing(pairs(entries@)) ==> r is Ok,
{
    let mut builder = fst::MapBuilder::memory();
    match builder.extend_iter(entries.iter().map(|e| (e.0.as_bytes(), e.1))) {
        Ok(()) => builder.into_inner(),
        Err(e) => Err(e),
    }
}

/// The message of an error of the map.
///
/// Calls `to_string` on `fst::Error`.
#[verifier::external_body]
fn fst_error_text(e: &fst::Error) -> String {
    e.to_string()
}

/// The bytes are those of a map that was built from entries with
/// increasing keys.
pub open spec fn is_built(bytes: Seq<u8>) -> bool {
    exists|written: Seq<(Seq<char>, u64)>|
        is_increasing(written) && bytes == #[trigger] fst_bytes(written)
}

/// The map is one that reading the bytes of a built map gives.
pub open spec fn is_read_from_built(entries: Map<Seq<u8>, u64>) -> bool {
    exists|bytes: Seq<u8>| is_built(bytes) && #[trigger] read_map(bytes) == Ok::<
        Map<Seq<u8>, u64>,
        Seq<char>,
    >(entries)
}

/// The map that the entries stand for: the bytes of each key with the
/// value of its entry.
pub open spec fn entries_map(written: Seq<(Seq<char>, u64)>) -> Map<Seq<u8>, u64> {
    Map::new(
        |k: Seq<u8>| has_key(written, k),
        |k: Seq<u8>| written[choose|i: int| is_key_at(written, i, k)].1,
    )
}

/// The entry with the number `i` has the key with the bytes `k`.
pub open spec fn is_key_at(written: Seq<(Seq<char>, u64)>, i: int, k: Seq<u8>) -> bool {
    0 <= i < written.len() && vstd::utf8::encode_utf8(written[i].0) == k
}

/// One of the entries has the key with the bytes `k`.
pub open spec fn has_key(written: Seq<(Seq<char>, u64)>, k: Seq<u8>) -> bool {
    exists|i: int| is_key_at(written, i, k)
}

/// What was read from `bytes` is what was built into them: where the bytes
/// are those of a map built from entries with increasing keys, the map of
/// those entries was read.
pub open spec fn reads_back(
    bytes: Seq<u8>,
    read: Result<Map<Seq<u8>, u64>, Seq<char>>,
) -> bool {
    forall|written: Seq<(Seq<char>, u64)>|
        is_increasing(written) && bytes == #[trigger] fst_bytes(written) ==> read == Ok::<
            Map<Seq<u8>, u64>,
            Seq<char>,
        >(entries_map(written))
}

/// What the outcome of reading a map stands for: the entries of the map,
/// or the message of the failure.
pub open spec fn map_model(r: Result<fst::Map, String>) -> Result<Map<Seq<u8>, u64>, Seq<char>> {
    match r {
        Ok(map) => Ok(map_entries(map)),
        Err(e) => Err(e@),
    }
}

/// Reads a map from its bytes.
///
/// Calls `fst::Map::from_bytes`, and `to_string` on the error. Whether the
/// bytes are a map, and what it holds, depends on the bytes alone, and is
/// named `read_map`. The bytes that the builder has written are read back
/// as the map of the entries that were built into them.
#[verifier::external_body]
fn map_from_bytes(bytes: Vec<u8>) -> (r: Result<fst::Map, String>)
    ensures
        map_model(r) == read_map(bytes@),
        reads_back(bytes@, map_model(r)),
{
    fst::Map::from_bytes(bytes).map_err(|e| e.to_string())
}

/// The entries of the map whose keys match the regular expression.
///
/// Calls `fst_regex::Regex::new`, `fst::Map::search` and
/// `into_str_vec` on the stream. What comes back depends on the entries of
/// the map and on the pattern alone, and is named `regex_matches`. The
/// search walks the bytes of the map without checking them, so only a map
/// that was read from the bytes of a built map is admitted.
#[verifier::external_body]
fn map_search(map: &fst::Map, pattern: &str) -> (r: Result<Vec<(String, u64)>, String>)
    requires
        is_read_from_built(map_entries(*map)),
    ensures
        found_model(r) == regex_matches(map_entries(*map), pattern@),
{
    match fst_regex::Regex::new(pattern) {
        Ok(re) => match fst::IntoStreamer::into_stream(map.search(&re)).into_str_vec() {
            Ok(found) => Ok(found),
            Err(e) => Err(e.to_string()),
        },
        Err(e) => Err(e.to_string()),
    }
}

/// The entries hold what the counts hold: each key of the counts once, with
/// its count.
pub open spec fn holds_counts(entries: Seq<(Seq<char>, u64)>, m: Map<Seq<char>, u32>) -> bool {
    &&& forall|i: int|
        0 <= i < entries.len() ==> m.contains_pair(
            (#[trigger] entries[i]).0,
            entries[i].1 as u32,
        ) && entries[i].1 <= u32::MAX
    &&& forall|k: Seq<char>|
        m.dom().contains(k) ==> exists|i: int| 0 <= i < entries.len() && (#[trigger] entries[i]).0 == k
    &&& forall|i: int, j: int| 0 <= i < j < entries.len() ==> entries[i].0 != entries[j].0
}

/// The entries of a trie of counts with their counts widened.
pub fn widened_entries(anchor_counts: &qp_trie::Trie<qp_trie::wrapper::BString, u32>) -> (r: Vec<
    (String, u64),
>)
    ensures
        holds_counts(pairs(r@), counts(*anchor_counts)),
{
    let entries = trie_entries(anchor_counts);
    let mut out: Vec<(String, u64)> = Vec::new();
    let mut i: usize = 0;
    while i < entries.len()
        invariant
            i <= entries.len(),
            out@.len() == i,
            forall|j: int|
                0 <= j < i ==> (#[trigger] out@[j]).0@ == entries@[j].0@ && out@[j].1
                    == entries@[j].1,
        decreases entries.len() - i,
    {
        out.push((entries[i].0.clone(), entries[i].1 as u64));
        i += 1;
    }
    proof {
        let e = pairs(out@);
        let m = counts(*anchor_counts);
        assert forall|j: int| 0 <= j < e.len() implies m.contains_pair(
            (#[trigger] e[j]).0,
            e[j].1 as u32,
        ) && e[j].1 <= u32::MAX by {
            assert(out@[j].0@ == entries@[j].0@);
            assert(m.contains_pair(entries@[j].0@, entries@[j].1));
        }
        assert forall|k: Seq<char>| m.dom().contains(k) implies exists|j: int|
            0 <= j < e.len() && (#[trigger] e[j]).0 == k by {
            let j = choose|j: int| 0 <= j < entries@.len() && #[trigger] entries@[j].0@ == k;
            assert(out@[j].0@ == entries@[j].0@);
            assert(e[j].0 == k);
        }
        assert forall|a: int, b: int| 0 <= a < b < e.len() implies e[a].0 != e[b].0 by {
            assert(out@[a].0@ == entries@[a].0@);
            assert(out@[b].0@ == entries@[b].0@);
        }
    }
    out
}

/// Entries that hold the same elements as entries with different keys hold
/// what those hold, and have different keys too.
proof fn lemma_rearranged(
    before: Seq<(String, u64)>,
    after: Seq<(String, u64)>,
    m: Map<Seq<char>, u32>,
)
    requires
        before.to_multiset() == after.to_multiset(),
        holds_counts(pairs(before), m),
    ensures
        holds_counts(pairs(after), m),
{
    broadcast use vstd::seq_lib::group_to_multiset_ensures;

    let b = pairs(before);
    let a = pairs(after);
    assert(before.no_duplicates()) by {
        assert forall|i: int, j: int|
            0 <= i < before.len() && 0 <= j < before.len() && i != j implies before[i]
            != before[j] by {
            if i < j {
                assert(b[i].0 != b[j].0);
            } else {
                assert(b[j].0 != b[i].0);
            }
        }
    }
    before.lemma_multiset_has_no_duplicates();
    after.lemma_multiset_has_no_duplicates_conv();
    assert forall|i: int| 0 <= i < a.len() implies m.contains_pair(
        (#[trigger] a[i]).0,
        a[i].1 as u32,
    ) && a[i].1 <= u32::MAX by {
        assert(after.to_multiset().contains(after[i]));
        assert(before.contains(after[i]));
        let j = choose|j: int| 0 <= j < before.len() && before[j] == after[i];
        assert(b[j] == a[i]);
    }
    assert forall|k: Seq<char>| m.dom().contains(k) implies exists|i: int|
        0 <= i < a.len() && (#[trigger] a[i]).0 == k by {
        let j = choose|j: int| 0 <= j < b.len() && (#[trigger] b[j]).0 == k;
        assert(before.to_multiset().contains(before[j]));
        assert(after.contains(before[j]));
        let i = choose|i: int| 0 <= i < after.len() && after[i] == before[j];
        assert(a[i].0 == k);
    }
    assert forall|i: int, j: int| 0 <= i < j < a.len() implies a[i].0 != a[j].0 by {
        if a[i].0 == a[j].0 {
            assert(after.to_multiset().contains(after[i]));
            assert(after.to_multiset().contains(after[j]));
            assert(before.contains(after[i]));
            assert(before.contains(after[j]));
            let p = choose|p: int| 0 <= p < before.len() && before[p] == after[i];
            let q = choose|q: int| 0 <= q < before.len() && before[q] == after[j];
            assert(b[p].0 == b[q].0);
            if p < q {
                assert(b[p].0 != b[q].0);
            }
            if q < p {
                assert(b[q].0 != b[p].0);
            }
            assert(after[i] == after[j]);
        }
    }
}

/// Builds the sorted map of the flat form: the entries of the counts are
/// written in the order of their keys, each key once, and the map is never
/// refused.
pub fn build_fst_from_anchors(
    anchor_counts: &qp_trie::Trie<qp_trie::wrapper::BString, u32>,
) -> (r: Result<Vec<u8>, String>)
    ensures
        r matches Ok(bytes) && exists|written: Seq<(Seq<char>, u64)>|
            {
                &&& holds_counts(written, counts(*anchor_counts))
                &&& is_increasing(written)
                &&& bytes@ == #[trigger] fst_bytes(written)
            },
{
    let mut anchors = widened_entries(anchor_counts);
    let ghost before = anchors@;
    sort_by_key(&mut anchors);
    proof {
        lemma_rearranged(before, anchors@, counts(*anchor_counts));
        lemma_sorted_distinct_is_increasing(pairs(anchors@));
    }
    match fst_build(&anchors) {
        Ok(bytes) => Ok(bytes),
        Err(e) => Err(fst_error_text(&e)),
    }
}

/// The surface forms of a sorted map of the flat form. The map is always
/// one that was read from the bytes of a built map.
pub struct WikiAnchors {
    anchors: fst::Map,
}

/// Whether the character has a meaning of its own in a regular expression.
pub open spec fn is_special(c: char) -> bool {
    c == '\\' || c == '.' || c == '+' || c == '*' || c == '?' || c == '(' || c == ')' || c == '|'
        || c == '[' || c == ']' || c == '{' || c == '}' || c == '^' || c == '$' || c == '#'
}

/// The text as a regular expression that matches it and nothing else: a
/// backslash stands before each character that has a meaning of its own.
pub open spec fn escaped(text: Seq<char>) -> Seq<char>
    decreases text.len(),
{
    if text.len() == 0 {
        Seq::empty()
    } else if is_special(text.last()) {
        escaped(text.drop_last()) + seq!['\\', text.last()]
    } else {
        escaped(text.drop_last()) + seq![text.last()]
    }
}

/// The text as a regular expression that matches it and nothing else.
pub fn escape(text: &str) -> (r: String)
    ensures
        r@ == escaped(text@),
{
    let chars = chars_of(text);
    let mut out: Vec<char> = Vec::new();
    let mut i: usize = 0;
    assert(chars@.take(0) =~= Seq::<char>::empty());
    while i < chars.len()
        invariant
            i <= chars.len(),
            out@ == escaped(chars@.take(i as int)),
        decreases chars.len() - i,
    {
        let c = chars[i];
        assert(chars@.take(i + 1).drop_last() =~= chars@.take(i as int));
        assert(chars@.take(i + 1).last() == c);
        let ghost before = out@;
        if c == '\\' || c == '.' || c == '+' || c == '*' || c == '?' || c == '(' || c == ')' || c
            == '|' || c == '[' || c == ']' || c == '{' || c == '}' || c == '^' || c == '$' || c
            == '#' {
            out.push('\\');
            out.push(c);
            assert(out@ =~= before + seq!['\\', c]);
        } else {
            out.push(c);
            assert(out@ =~= before + seq![c]);
        }
        i += 1;
    }
    assert(chars@.take(chars@.len() as int) =~= chars@);
    string_of(&out)
}

/// The regular expression that finds the entries of a surface form: the
/// surface as it is written, a tab, and anything.
pub open spec fn pattern_of(surface_form: Seq<char>) -> Seq<char> {
    escaped(surface_form) + "\t.*"@
}

/// Whether every key holds a tab.
fn keys_have_tabs(stream: &Vec<(String, u64)>) -> (b: bool)
    ensures
        b == all_paired(pairs(stream@)),
{
    let tab: Vec<char> = vec!['\t'];
    assert(tab@ =~= seq!['\t']);
    let mut i: usize = 0;
    while i < stream.len()
        invariant
            i <= stream.len(),
            tab@ == seq!['\t'],
            forall|j: int| 0 <= j < i ==> find((#[trigger] pairs(stream@)[j]).0, seq!['\t']) is Some,
        decreases stream.len() - i,
    {
        let key = chars_of(stream[i].0.as_str());
        assert(pairs(stream@)[i as int].0 == key@);
        if find_in(&key, &tab, 0).is_none() {
            return false;
        }
        i += 1;
    }
    true
}

impl WikiAnchors {
    /// The map was read from the bytes of a built map.
    #[verifier::type_invariant]
    pub closed spec fn is_sound(self) -> bool {
        is_read_from_built(map_entries(self.anchors))
    }

    /// The value that the map holds for each of its keys.
    pub closed spec fn entries(self) -> Map<Seq<u8>, u64> {
        map_entries(self.anchors)
    }

    /// Reads the map from the bytes that the build has written: the map of
    /// the entries that were built into them. Other bytes are not admitted:
    /// a search in a map that nothing has built may not come back.
    pub fn new(bytes: Vec<u8>) -> (r: Result<WikiAnchors, String>)
        requires
            is_built(bytes@),
        ensures
            r matches Ok(w) && read_map(bytes@) == Ok::<Map<Seq<u8>, u64>, Seq<char>>(w.entries())
                && reads_back(bytes@, Ok(w.entries())),
    {
        proof {
            let written = choose|written: Seq<(Seq<char>, u64)>|
                is_increasing(written) && bytes@ == #[trigger] fst_bytes(written);
            assert(bytes@ == fst_bytes(written));
        }
        match map_from_bytes(bytes) {
            Ok(anchors) => {
                assert(is_read_from_built(map_entries(anchors)));
                Ok(WikiAnchors { anchors })
            },
            Err(e) => Err(e),
        }
    }

    /// Builds the sorted map of the counts and reads it: the map holds
    /// exactly the counts, each key once.
    pub fn from_counts(anchor_counts: &qp_trie::Trie<qp_trie::wrapper::BString, u32>) -> (r: Result<
        WikiAnchors,
        String,
    >)
        ensures
            r matches Ok(w) && exists|written: Seq<(Seq<char>, u64)>|
                {
                    &&& holds_counts(written, counts(*anchor_counts))
                    &&& is_increasing(written)
                    &&& #[trigger] entries_map(written) == w.entries()
                },
    {
        match build_fst_from_anchors(anchor_counts) {
            Ok(bytes) => {
                let ghost written = choose|written: Seq<(Seq<char>, u64)>|
                    {
                        &&& holds_counts(written, counts(*anchor_counts))
                        &&& is_increasing(written)
                        &&& bytes@ == #[trigger] fst_bytes(written)
                    };
                let r = WikiAnchors::new(bytes);
                assert(r matches Ok(w) && entries_map(written) == w.entries());
                r
            },
            Err(e) => Err(e),
        }
    }

    /// The surface form that the found entries give; none where nothing was
    /// found.
    ///
    /// The pages are what stands behind the tab of each key; found entries
    /// without a tab, or with counts whose sum does not fit, are an error.
    pub fn surface_form_of(surface_form: &str, found: Result<Vec<(String, u64)>, String>) -> (r:
        Result<Option<SurfaceForm>, SurfaceFormStoreError>)
        ensures
            match found {
                Err(e) => r == Err::<Option<SurfaceForm>, SurfaceFormStoreError>(
                    SurfaceFormStoreError::Generic(e),
                ),
                Ok(stream) => if stream@.len() == 0 {
                    r matches Ok(None)
                } else if all_paired(pairs(stream@)) && total(pairs(stream@)) <= u64::MAX {
                    r matches Ok(Some(sf)) && sf.wf() && sf.text@ == surface_form@ && sf@.anchors
                        == paired(pairs(stream@))
                } else {
                    r matches Err(SurfaceFormStoreError::Generic(_))
                },
            },
    {
        match found {
            Err(e) => Err(SurfaceFormStoreError::Generic(e)),
            Ok(stream) => {
                if stream.len() == 0 {
                    return Ok(None);
                }
                if !keys_have_tabs(&stream) {
                    return Err(
                        SurfaceFormStoreError::Generic(String::from_str("an entry without a tab")),
                    );
                }
                if SurfaceForm::sum_of(&stream).is_none() {
                    return Err(
                        SurfaceFormStoreError::Generic(String::from_str("too many occurrences")),
                    );
                }
                Ok(Some(SurfaceForm::from_paired_matches(surface_form, stream)))
            },
        }
    }

    /// The surface form of `surface_form`: the entries whose keys are the
    /// surface, a tab and a page; none where there is no such entry.
    pub fn get(&self, surface_form: &str) -> (r: Result<Option<SurfaceForm>, SurfaceFormStoreError>)
        ensures
            match regex_matches(self.entries(), pattern_of(surface_form@)) {
                Err(e) => r matches Err(SurfaceFormStoreError::Generic(m)) && m@ == e,
                Ok(stream) => if stream.len() == 0 {
                    r matches Ok(None)
                } else if all_paired(stream) && total(stream) <= u64::MAX {
                    r matches Ok(Some(sf)) && sf.wf() && sf.text@ == surface_form@ && sf@.anchors
                        == paired(stream)
                } else {
                    r matches Err(SurfaceFormStoreError::Generic(_))
                },
            },
    {
        proof {
            use_type_invariant(self);
        }
        let pattern = escape(surface_form).concat("\t.*");
        let found = map_search(&self.anchors, pattern.as_str());
        WikiAnchors::surface_form_of(surface_form, found)
    }
}

} // verus!
