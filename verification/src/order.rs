//! The order of keys: that of their bytes, byte by byte.

use vstd::prelude::*;
use vstd::utf8::encode_utf8;

verus! {

/// `a` stands before `b` in the order of the dictionary.
pub open spec fn lex_lt(a: Seq<u8>, b: Seq<u8>) -> bool
    decreases a.len(),
{
    if b.len() == 0 {
        false
    } else if a.len() == 0 {
        true
    } else if a[0] != b[0] {
        a[0] < b[0]
    } else {
        lex_lt(a.drop_first(), b.drop_first())
    }
}

/// The key `a` stands before the key `b`: its bytes do.
pub open spec fn key_lt(a: Seq<char>, b: Seq<char>) -> bool {
    lex_lt(encode_utf8(a), encode_utf8(b))
}

/// No entry has a key that stands before the key of an entry before it.
pub open spec fn is_sorted(entries: Seq<(Seq<char>, u64)>) -> bool {
    forall|i: int, j: int| 0 <= i < j < entries.len() ==> !key_lt(entries[j].0, entries[i].0)
}

/// The key of each entry stands before the keys of all entries behind it.
pub open spec fn is_increasing(entries: Seq<(Seq<char>, u64)>) -> bool {
    forall|i: int, j: int| 0 <= i < j < entries.len() ==> key_lt(entries[i].0, entries[j].0)
}

/// Of two sequences of bytes one stands before the other, or they are the
/// same.
pub proof fn lemma_lex_total(a: Seq<u8>, b: Seq<u8>)
    ensures
        lex_lt(a, b) || a == b || lex_lt(b, a),
    decreases a.len(),
{
    if a.len() == 0 || b.len() == 0 {
        if a.len() == 0 && b.len() == 0 {
            assert(a =~= b);
        }
    } else if a[0] == b[0] {
        lemma_lex_total(a.drop_first(), b.drop_first());
        if a.drop_first() == b.drop_first() {
            assert(a =~= seq![a[0]] + a.drop_first());
            assert(b =~= seq![b[0]] + b.drop_first());
        }
    }
}

/// Two keys with the same bytes are the same key.
pub proof fn lemma_key_bytes_injective(a: Seq<char>, b: Seq<char>)
    requires
        encode_utf8(a) == encode_utf8(b),
    ensures
        a == b,
{
    vstd::utf8::encode_utf8_decode_utf8(a);
    vstd::utf8::encode_utf8_decode_utf8(b);
}

/// Of two different keys one stands before the other.
pub proof fn lemma_key_total(a: Seq<char>, b: Seq<char>)
    ensures
        key_lt(a, b) || a == b || key_lt(b, a),
{
    lemma_lex_total(encode_utf8(a), encode_utf8(b));
    if encode_utf8(a) == encode_utf8(b) {
        lemma_key_bytes_injective(a, b);
    }
}

/// Sorted entries with different keys are increasing.
pub proof fn lemma_sorted_distinct_is_increasing(entries: Seq<(Seq<char>, u64)>)
    requires
        is_sorted(entries),
        forall|i: int, j: int| 0 <= i < j < entries.len() ==> entries[i].0 != entries[j].0,
    ensures
        is_increasing(entries),
{
    assert forall|i: int, j: int| 0 <= i < j < entries.len() implies key_lt(
        entries[i].0,
        entries[j].0,
    ) by {
        lemma_key_total(entries[i].0, entries[j].0);
    }
}

/// Whether `a` stands before `b` in the order of the dictionary.
pub fn bytes_less(a: &[u8], b: &[u8]) -> (r: bool)
    ensures
        r == lex_lt(a@, b@),
{
    let mut i: usize = 0;
    assert(a@.skip(0) =~= a@);
    assert(b@.skip(0) =~= b@);
    while i < a.len() && i < b.len()
        invariant
            i <= a.len(),
            i <= b.len(),
            lex_lt(a@, b@) == lex_lt(a@.skip(i as int), b@.skip(i as int)),
        decreases a.len() - i,
    {
        assert(a@.skip(i as int)[0] == a@[i as int]);
        assert(b@.skip(i as int)[0] == b@[i as int]);
        if a[i] != b[i] {
            return a[i] < b[i];
        }
        assert(a@.skip(i as int).drop_first() =~= a@.skip(i + 1));
        assert(b@.skip(i as int).drop_first() =~= b@.skip(i + 1));
        i += 1;
    }
    i < b.len()
}

/// Whether the key `a` stands before the key `b`.
pub fn key_less(a: &str, b: &str) -> (r: bool)
    ensures
        r == key_lt(a@, b@),
{
    bytes_less(a.as_bytes(), b.as_bytes())
}

} // verus!
