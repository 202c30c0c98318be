//! The positions at which a text occurs in another, counted in bytes.

use crate::text::{byte_at, byte_offsets, chars_of, find_from, find_in, lemma_find_from};
use vstd::prelude::*;

verus! {

/// Walks through the positions at which `needle` occurs in `haystack`,
/// from left to right, and hands them out counted in bytes. Occurrences may
/// overlap.
pub struct FindIndices {
    pub haystack: Vec<char>,
    pub needle: Vec<char>,
    /// The position of each character of the haystack counted in bytes,
    /// and behind them the length of the haystack in bytes.
    pub offsets: Vec<usize>,
    /// Where the search goes on.
    pub offset: usize,
    /// The search has passed the end of the haystack.
    pub exhausted: bool,
}

/// The positions at or after the character `from` at which `needle` occurs
/// in `haystack`, in ascending order, counted in bytes.
pub open spec fn occurrences_from(haystack: Seq<char>, needle: Seq<char>, from: int) -> Seq<usize>
    decreases haystack.len() + 1 - from,
{
    match find_from(haystack, needle, from) {
        Some(at) => if from <= at <= haystack.len() {
            seq![byte_at(haystack, at) as usize] + occurrences_from(haystack, needle, at + 1)
        } else {
            Seq::empty()
        },
        None => Seq::empty(),
    }
}

impl FindIndices {
    /// The position at which the search goes on: behind the end of the
    /// haystack once it is exhausted.
    pub open spec fn position(&self) -> int {
        if self.exhausted {
            (self.haystack@.len() + 1) as int
        } else {
            self.offset as int
        }
    }

    /// The search stands in the haystack or just behind it, and the
    /// positions in bytes are those of the haystack.
    pub open spec fn wf(&self) -> bool {
        &&& self.offset <= self.haystack@.len()
        &&& self.offsets@.len() == self.haystack@.len() + 1
        &&& forall|i: int|
            0 <= i <= self.haystack@.len() ==> #[trigger] self.offsets@[i] == byte_at(
                self.haystack@,
                i,
            )
    }

    /// A walk through the occurrences of `needle` in `haystack`, from the
    /// start.
    pub fn new(haystack: &str, needle: &str) -> (it: FindIndices)
        ensures
            it.wf(),
            it.haystack@ == haystack@,
            it.needle@ == needle@,
            it.position() == 0,
    {
        FindIndices {
            haystack: chars_of(haystack),
            needle: chars_of(needle),
            offsets: byte_offsets(haystack),
            offset: 0,
            exhausted: false,
        }
    }

    /// The next position at which the needle occurs, counted in bytes, if
    /// there is one; the search then goes on behind the character at that
    /// position.
    pub fn next(&mut self) -> (r: Option<usize>)
        requires
            old(self).wf(),
        ensures
            final(self).wf(),
            final(self).haystack == old(self).haystack,
            final(self).needle == old(self).needle,
            final(self).offsets == old(self).offsets,
            match find_from(old(self).haystack@, old(self).needle@, old(self).position()) {
                Some(at) => r == Some(byte_at(old(self).haystack@, at) as usize)
                    && final(self).position() == at + 1,
                None => r is None && final(self).position() == old(self).position(),
            },
    {
        if self.exhausted {
            return None;
        }
        proof {
            lemma_find_from(self.haystack@, self.needle@, self.offset as int);
        }
        match find_in(&self.haystack, &self.needle, self.offset) {
            Some(at) => {
                if at < self.haystack.len() {
                    self.offset = at + 1;
                } else {
                    self.exhausted = true;
                }
                Some(self.offsets[at])
            },
            None => None,
        }
    }

    /// All positions that are left, in ascending order, counted in bytes.
    pub fn collect(&mut self) -> (r: Vec<usize>)
        requires
            old(self).wf(),
        ensures
            r@ == occurrences_from(old(self).haystack@, old(self).needle@, old(self).position()),
    {
        let mut out: Vec<usize> = Vec::new();
        let ghost hay = self.haystack@;
        let ghost needle = self.needle@;
        let ghost start = self.position();
        loop
            invariant
                self.wf(),
                self.haystack@ == hay,
                self.needle@ == needle,
                hay == old(self).haystack@,
                needle == old(self).needle@,
                start == old(self).position(),
                occurrences_from(hay, needle, start) == out@ + occurrences_from(
                    hay,
                    needle,
                    self.position(),
                ),
            decreases hay.len() + 1 - self.position(),
        {
            proof {
                if !self.exhausted {
                    lemma_find_from(hay, needle, self.offset as int);
                }
            }
            let ghost pos = self.position();
            match self.next() {
                Some(byte) => {
                    let ghost before = out@;
                    let ghost at = find_from(hay, needle, pos)->0;
                    out.push(byte);
                    assert(before + (seq![byte] + occurrences_from(hay, needle, at + 1)) =~= out@
                        + occurrences_from(hay, needle, at + 1));
                },
                None => {
                    assert(find_from(hay, needle, pos) is None);
                    assert(occurrences_from(hay, needle, pos) =~= Seq::<usize>::empty());
                    assert(out@ + Seq::<usize>::empty() =~= out@);
                    return out;
                },
            }
        }
    }
}

/// Texts in which the occurrences of a needle can be walked through.
pub trait IndicesOf {
    /// A walk through the occurrences of `needle` in this text.
    fn indices_of(&self, needle: &str) -> FindIndices;
}

impl IndicesOf for str {
    fn indices_of(&self, needle: &str) -> (it: FindIndices)
        ensures
            it.wf(),
            it.haystack@ == self@,
            it.needle@ == needle@,
            it.position() == 0,
    {
        FindIndices::new(self, needle)
    }
}

} // verus!
