//! Counts kept in a QP-trie, keyed by text.

use vstd::prelude::*;

verus! {

/// The trie of `qp_trie`, which is carried and never looked into.
#[verifier::external_type_specification]
#[verifier::external_body]
#[verifier::reject_recursive_types(K)]
#[verifier::reject_recursive_types(V)]
pub struct ExTrie<K, V>(qp_trie::Trie<K, V>);

/// The string of `qp_trie` that is a key of a trie.
#[verifier::external_type_specification]
#[verifier::external_body]
pub struct ExBString(qp_trie::wrapper::BString);

/// The count that a trie of counts holds for each of its keys.
pub uninterp spec fn counts(trie: qp_trie::Trie<qp_trie::wrapper::BString, u32>) -> Map<
    Seq<char>,
    u32,
>;

/// The count that `m` holds for `key`: zero where it holds none.
pub open spec fn count_of(m: Map<Seq<char>, u32>, key: Seq<char>) -> int {
    if m.dom().contains(key) {
        m[key] as int
    } else {
        0
    }
}

/// No count for any key.
pub open spec fn no_counts() -> Map<Seq<char>, u32> {
    Map::empty()
}

/// An empty trie of counts.
///
/// Calls `qp_trie::Trie::new`, which makes a trie without entries.
#[verifier::external_body]
pub(crate) fn trie_new() -> (r: qp_trie::Trie<qp_trie::wrapper::BString, u32>)
    ensures
        counts(r) == no_counts(),
{
    qp_trie::Trie::new()
}

/// The count kept for `key`, if there is one.
///
/// Calls `qp_trie::Trie::get_str`, which looks the key up and changes
/// nothing.
#[verifier::external_body]
pub(crate) fn trie_get(trie: &qp_trie::Trie<qp_trie::wrapper::BString, u32>, key: &str) -> (r:
    Option<u32>)
    ensures
        r == (if counts(*trie).dom().contains(key@) {
            Some(counts(*trie)[key@])
        } else {
            None::<u32>
        }),
{
    trie.get_str(key).copied()
}

/// Keeps `count` for `key`, in place of what was kept for it.
///
/// Calls `qp_trie::Trie::insert_str`, which sets the entry of this key and
/// leaves the others as they are.
#[verifier::external_body]
pub(crate) fn trie_insert(
    trie: &mut qp_trie::Trie<qp_trie::wrapper::BString, u32>,
    key: &str,
    count: u32,
)
    ensures
        counts(*final(trie)) == counts(*old(trie)).insert(key@, count),
{
    trie.insert_str(key, count);
}

/// The entries of a trie: each key once, with its count.
///
/// Calls `qp_trie::Trie::iter`, which visits every entry of the trie once,
/// and copies each key and count out. Nothing is claimed of their order.
#[verifier::external_body]
pub(crate) fn trie_entries(trie: &qp_trie::Trie<qp_trie::wrapper::BString, u32>) -> (v: Vec<
    (String, u32),
>)
    ensures
        forall|i: int| 0 <= i < v@.len() ==> counts(*trie).contains_pair(#[trigger] v@[i].0@, v@[i].1),
        forall|k: Seq<char>| counts(*trie).dom().contains(k) ==> exists|i: int|
            0 <= i < v@.len() && #[trigger] v@[i].0@ == k,
        forall|i: int, j: int| 0 <= i < j < v@.len() ==> v@[i].0@ != v@[j].0@,
{
    trie.iter().map(|(k, c)| (k.as_str().to_owned(), *c)).collect()
}

/// Adds `n` to the count kept for `key`.
pub fn add_count(trie: &mut qp_trie::Trie<qp_trie::wrapper::BString, u32>, key: &str, n: u32)
    requires
        count_of(counts(*old(trie)), key@) + n <= u32::MAX,
    ensures
        counts(*final(trie)) == counts(*old(trie)).insert(
            key@,
            (count_of(counts(*old(trie)), key@) + n) as u32,
        ),
{
    let now: u32 = match trie_get(trie, key) {
        Some(c) => c,
        None => 0,
    };
    trie_insert(trie, key, now + n);
}

/// The counts that a trie of tries holds for each of its keys.
pub uninterp spec fn nested_counts(
    trie: qp_trie::Trie<qp_trie::wrapper::BString, qp_trie::Trie<qp_trie::wrapper::BString, u32>>,
) -> Map<Seq<char>, Map<Seq<char>, u32>>;

/// No counts for any key.
pub open spec fn no_nested_counts() -> Map<Seq<char>, Map<Seq<char>, u32>> {
    Map::empty()
}

/// An empty trie of tries.
///
/// Calls `qp_trie::Trie::new`, which makes a trie without entries.
#[verifier::external_body]
pub(crate) fn nested_new() -> (r: qp_trie::Trie<
    qp_trie::wrapper::BString,
    qp_trie::Trie<qp_trie::wrapper::BString, u32>,
>)
    ensures
        nested_counts(r) == no_nested_counts(),
{
    qp_trie::Trie::new()
}

/// Takes the counts kept for `key` out of the trie, if there are any.
///
/// Calls `qp_trie::Trie::remove_str`, which removes the entry of this key
/// and hands out its value, and leaves the other entries as they are.
#[verifier::external_body]
pub(crate) fn nested_take(
    trie: &mut qp_trie::Trie<
        qp_trie::wrapper::BString,
        qp_trie::Trie<qp_trie::wrapper::BString, u32>,
    >,
    key: &str,
) -> (r: Option<qp_trie::Trie<qp_trie::wrapper::BString, u32>>)
    ensures
        nested_counts(*final(trie)) == nested_counts(*old(trie)).remove(key@),
        r is Some <==> nested_counts(*old(trie)).dom().contains(key@),
        r matches Some(inner) ==> counts(inner) == nested_counts(*old(trie))[key@],
{
    trie.remove_str(key)
}

/// Keeps the counts `inner` for `key`, in place of what was kept for it.
///
/// Calls `qp_trie::Trie::insert_str`, which sets the entry of this key and
/// leaves the others as they are.
#[verifier::external_body]
pub(crate) fn nested_put(
    trie: &mut qp_trie::Trie<
        qp_trie::wrapper::BString,
        qp_trie::Trie<qp_trie::wrapper::BString, u32>,
    >,
    key: &str,
    inner: qp_trie::Trie<qp_trie::wrapper::BString, u32>,
)
    ensures
        nested_counts(*final(trie)) == nested_counts(*old(trie)).insert(key@, counts(inner)),
{
    trie.insert_str(key, inner);
}

/// The entries of a trie of tries: each key once, with its counts.
///
/// Calls `IntoIterator::into_iter` of `qp_trie::Trie`, which hands out
/// every entry of the trie once, and turns each key into a string. Nothing
/// is claimed of their order.
#[verifier::external_body]
pub(crate) fn nested_entries(
    trie: qp_trie::Trie<qp_trie::wrapper::BString, qp_trie::Trie<qp_trie::wrapper::BString, u32>>,
) -> (v: Vec<(String, qp_trie::Trie<qp_trie::wrapper::BString, u32>)>)
    ensures
        forall|i: int|
            0 <= i < v@.len() ==> nested_counts(trie).contains_pair(
                #[trigger] v@[i].0@,
                counts(v@[i].1),
            ),
        forall|k: Seq<char>|
            nested_counts(trie).dom().contains(k) ==> exists|i: int|
                0 <= i < v@.len() && #[trigger] v@[i].0@ == k,
        forall|i: int, j: int| 0 <= i < j < v@.len() ==> v@[i].0@ != v@[j].0@,
{
    trie.into_iter().map(|(k, inner)| (String::from(k), inner)).collect()
}

} // verus!
