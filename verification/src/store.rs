//! Writing records to a store of keys and values in batches.

use vstd::prelude::*;

verus! {

/// How many records one batch holds where nothing else is asked for.
pub const CHUNK_FACTOR: usize = 20000;

/// The store after the records were put, in order: each record sets the
/// value of its key.
pub open spec fn put_all(store: Map<Seq<u8>, Seq<u8>>, batch: Seq<(Seq<u8>, Seq<u8>)>) -> Map<
    Seq<u8>,
    Seq<u8>,
>
    decreases batch.len(),
{
    if batch.len() == 0 {
        store
    } else {
        put_all(store, batch.drop_last()).insert(batch.last().0, batch.last().1)
    }
}

/// The value that a batch leaves for `key`: that of the last record with
/// this key.
pub open spec fn last_value(batch: Seq<(Seq<u8>, Seq<u8>)>, key: Seq<u8>) -> Option<Seq<u8>>
    decreases batch.len(),
{
    if batch.len() == 0 {
        None
    } else if batch.last().0 == key {
        Some(batch.last().1)
    } else {
        last_value(batch.drop_last(), key)
    }
}

/// After a batch was put, each of its keys has the value of its last record,
/// and every other key is as it was.
pub proof fn lemma_put_all(store: Map<Seq<u8>, Seq<u8>>, batch: Seq<(Seq<u8>, Seq<u8>)>, key: Seq<u8>)
    ensures
        match last_value(batch, key) {
            Some(v) => put_all(store, batch).contains_pair(key, v),
            None => put_all(store, batch).dom().contains(key) == store.dom().contains(key) && (
            store.dom().contains(key) ==> put_all(store, batch)[key] == store[key]),
        },
    decreases batch.len(),
{
    if batch.len() > 0 {
        lemma_put_all(store, batch.drop_last(), key);
    }
}

/// Putting a batch a second time changes nothing: a batch that is tried
/// again leaves the store as the first try left it.
pub proof fn lemma_put_many_idempotent(store: Map<Seq<u8>, Seq<u8>>, batch: Seq<(Seq<u8>, Seq<u8>)>)
    ensures
        put_all(put_all(store, batch), batch) == put_all(store, batch),
{
    let once = put_all(store, batch);
    let twice = put_all(once, batch);
    assert forall|k: Seq<u8>| #[trigger] twice.dom().contains(k) == once.dom().contains(k) by {
        lemma_put_all(store, batch, k);
        lemma_put_all(once, batch, k);
    }
    assert forall|k: Seq<u8>| #[trigger] once.dom().contains(k) implies twice[k] == once[k] by {
        lemma_put_all(store, batch, k);
        lemma_put_all(once, batch, k);
    }
    assert(twice =~= once);
}

/// The batches of `len` records are full but the last, follow one another
/// and hold every record once.
pub open spec fn is_batching(batches: Seq<(usize, usize)>, len: int, chunk: int) -> bool {
    &&& forall|i: int|
        0 <= i < batches.len() ==> (#[trigger] batches[i]).0 == i * chunk && batches[i].1 == (if (i
            + 1) * chunk < len {
            (i + 1) * chunk
        } else {
            len
        }) && batches[i].0 < batches[i].1
    &&& batches.len() * chunk >= len
    &&& (batches.len() - 1) * chunk < len || batches.len() == 0
}

/// Where the batches of `len` records begin and end, for batches of `chunk`
/// records.
pub fn batches(len: usize, chunk: usize) -> (r: Vec<(usize, usize)>)
    requires
        chunk > 0,
    ensures
        is_batching(r@, len as int, chunk as int),
{
    let mut out: Vec<(usize, usize)> = Vec::new();
    let mut start: usize = 0;
    assert(0 * chunk == 0) by (nonlinear_arith);
    while start < len
        invariant
            chunk > 0,
            start <= len,
            start == out@.len() * chunk,
            forall|i: int|
                0 <= i < out@.len() ==> (#[trigger] out@[i]).0 == i * chunk && out@[i].1 == (if (i
                    + 1) * chunk < len {
                    (i + 1) * chunk
                } else {
                    len as int
                }) && out@[i].0 < out@[i].1,
            out@.len() > 0 ==> (out@.len() - 1) * chunk < len,
        decreases len - start,
    {
        let end: usize = if len - start > chunk {
            start + chunk
        } else {
            len
        };
        let ghost n = out@.len() as int;
        assert((n + 1) * chunk == n * chunk + chunk) by (nonlinear_arith);
        out.push((start, end));
        if end == len {
            assert(out@.len() * chunk >= len);
            return out;
        }
        start = end;
    }
    assert(out@.len() * chunk >= len);
    out
}

} // verus!
