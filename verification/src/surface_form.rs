//! Surface forms: a text and how often it links to each page.

use crate::ratio::Ratio;
use crate::text::{chars_of, find, find_in, lemma_find_from, same_text, slice_of, string_of};
use vstd::prelude::*;
use vstd::string::*;

verus! {

/// A surface text with the pages it links to, each with the number of its
/// links, and the number of all its links.
#[derive(Clone, Debug, PartialEq)]
pub struct SurfaceForm {
    /// The surface text.
    pub text: String,
    /// The pages that the text links to, each with the number of links.
    pub anchors: Vec<(String, u64)>,
    /// The number of all links: the sum of the counts in `anchors`.
    pub wiki_occurrences: u64,
}

/// What a `SurfaceForm` stands for.
pub struct SurfaceFormModel {
    pub text: Seq<char>,
    pub anchors: Seq<(Seq<char>, u64)>,
    pub wiki_occurrences: u64,
}

/// The pages and counts that a list of pairs stands for.
pub open spec fn pairs(anchors: Seq<(String, u64)>) -> Seq<(Seq<char>, u64)> {
    anchors.map_values(|a: (String, u64)| (a.0@, a.1))
}

/// The sum of the counts.
pub open spec fn total(anchors: Seq<(Seq<char>, u64)>) -> nat
    decreases anchors.len(),
{
    if anchors.len() == 0 {
        0
    } else {
        total(anchors.drop_last()) + anchors.last().1 as nat
    }
}

/// The page named by a match of the flat form: what stands behind the first
/// tab of the key.
pub open spec fn page_of_key(key: Seq<char>) -> Seq<char> {
    match find(key, seq!['\t']) {
        Some(i) => key.skip(i + 1),
        None => key,
    }
}

/// The pages and counts that the matches of the flat form stand for.
pub open spec fn paired(stream: Seq<(Seq<char>, u64)>) -> Seq<(Seq<char>, u64)> {
    stream.map_values(|m: (Seq<char>, u64)| (page_of_key(m.0), m.1))
}

/// Every key of the stream holds a tab.
pub open spec fn all_paired(stream: Seq<(Seq<char>, u64)>) -> bool {
    forall|i: int| 0 <= i < stream.len() ==> find((#[trigger] stream[i]).0, seq!['\t']) is Some
}

/// The share of `count` in `occurrences`.
pub open spec fn commonness(count: u64, occurrences: u64) -> Ratio {
    Ratio { num: count, den: occurrences }
}

/// The pages of `anchors` whose share in `occurrences` is at least
/// `threshold`, each with its share, in order.
pub open spec fn matches_above(
    anchors: Seq<(Seq<char>, u64)>,
    occurrences: u64,
    threshold: Ratio,
) -> Seq<(Seq<char>, Ratio)>
    decreases anchors.len(),
{
    if anchors.len() == 0 {
        Seq::empty()
    } else {
        let front = matches_above(anchors.drop_last(), occurrences, threshold);
        let c = commonness(anchors.last().1, occurrences);
        if c.at_least(threshold) {
            front.push((anchors.last().0, c))
        } else {
            front
        }
    }
}

/// The count of the first entry for `page`, if there is one.
pub open spec fn first_count(anchors: Seq<(Seq<char>, u64)>, page: Seq<char>) -> Option<u64>
    decreases anchors.len(),
{
    if anchors.len() == 0 {
        None
    } else if anchors[0].0 == page {
        Some(anchors[0].1)
    } else {
        first_count(anchors.drop_first(), page)
    }
}

/// The pages with their shares that a list of matches stands for.
pub open spec fn shares(matches: Seq<(String, Ratio)>) -> Seq<(Seq<char>, Ratio)> {
    matches.map_values(|m: (String, Ratio)| (m.0@, m.1))
}

/// The sum of a list of counts grows with the list.
pub proof fn lemma_total_grows(anchors: Seq<(Seq<char>, u64)>, k: int)
    requires
        0 <= k <= anchors.len(),
    ensures
        total(anchors.take(k)) <= total(anchors),
    decreases anchors.len() - k,
{
    if k < anchors.len() {
        lemma_total_grows(anchors, k + 1);
        assert(anchors.take(k + 1).drop_last() =~= anchors.take(k));
    } else {
        assert(anchors.take(k) =~= anchors);
    }
}

impl View for SurfaceForm {
    type V = SurfaceFormModel;

    open spec fn view(&self) -> SurfaceFormModel {
        SurfaceFormModel {
            text: self.text@,
            anchors: pairs(self.anchors@),
            wiki_occurrences: self.wiki_occurrences,
        }
    }
}

impl SurfaceForm {
    /// The number of all links is the sum of the counts.
    pub open spec fn wf(&self) -> bool {
        self.wiki_occurrences == total(pairs(self.anchors@))
    }

    /// The sum of the counts, if it fits.
    pub fn sum_of(anchors: &Vec<(String, u64)>) -> (r: Option<u64>)
        ensures
            match r {
                Some(n) => n == total(pairs(anchors@)),
                None => total(pairs(anchors@)) > u64::MAX,
            },
    {
        let ghost all = pairs(anchors@);
        let mut sum: u64 = 0;
        let mut i: usize = 0;
        assert(all.take(0) =~= Seq::<(Seq<char>, u64)>::empty());
        while i < anchors.len()
            invariant
                i <= anchors.len(),
                all == pairs(anchors@),
                sum == total(all.take(i as int)),
            decreases anchors.len() - i,
        {
            proof {
                assert(all.take(i + 1).drop_last() =~= all.take(i as int));
                assert(all.take(i + 1).last() == all[i as int]);
            }
            if anchors[i].1 > u64::MAX - sum {
                proof {
                    lemma_total_grows(all, i + 1);
                }
                return None;
            }
            sum = sum + anchors[i].1;
            i += 1;
        }
        assert(all.take(anchors@.len() as int) =~= all);
        Some(sum)
    }

    /// The surface form of `surface_form` with the given pages and counts.
    pub fn new(surface_form: &str, anchors: Vec<(String, u64)>) -> (s: SurfaceForm)
        requires
            total(pairs(anchors@)) <= u64::MAX,
        ensures
            s.wf(),
            s.text@ == surface_form@,
            s.anchors == anchors,
    {
        SurfaceForm::from_string(String::from_str(surface_form), anchors)
    }

    /// The surface form of `text` with the given pages and counts.
    pub fn from_string(text: String, anchors: Vec<(String, u64)>) -> (s: SurfaceForm)
        requires
            total(pairs(anchors@)) <= u64::MAX,
        ensures
            s.wf(),
            s.text == text,
            s.anchors == anchors,
    {
        let wiki_occurrences: u64 = match SurfaceForm::sum_of(&anchors) {
            Some(n) => n,
            None => 0,
        };
        SurfaceForm { text, anchors, wiki_occurrences }
    }

    /// The surface form of `query` from the matches of the flat form, whose
    /// keys are the surface, a tab and the page.
    pub fn from_paired_matches(query: &str, stream: Vec<(String, u64)>) -> (s: SurfaceForm)
        requires
            all_paired(pairs(stream@)),
            total(pairs(stream@)) <= u64::MAX,
        ensures
            s.wf(),
            s.text@ == query@,
            s@.anchors == paired(pairs(stream@)),
    {
        let anchors = SurfaceForm::paired_matches_to_vec(stream);
        proof {
            lemma_total_of_paired(pairs(stream@));
        }
        SurfaceForm::from_string(String::from_str(query), anchors)
    }

    /// The pages and counts of the matches of the flat form.
    pub fn paired_matches_to_vec(stream: Vec<(String, u64)>) -> (r: Vec<(String, u64)>)
        requires
            all_paired(pairs(stream@)),
        ensures
            pairs(r@) == paired(pairs(stream@)),
    {
        let ghost want = paired(pairs(stream@));
        let tab: Vec<char> = vec!['\t'];
        assert(tab@ =~= seq!['\t']);
        let mut out: Vec<(String, u64)> = Vec::new();
        let mut i: usize = 0;
        while i < stream.len()
            invariant
                i <= stream.len(),
                tab@ == seq!['\t'],
                all_paired(pairs(stream@)),
                want == paired(pairs(stream@)),
                out@.len() == i,
                forall|j: int| 0 <= j < i ==> ((#[trigger] out@[j]).0@, out@[j].1) == want[j],
            decreases stream.len() - i,
        {
            let key = chars_of(stream[i].0.as_str());
            assert(pairs(stream@)[i as int].0 == key@);
            let page = match find_in(&key, &tab, 0) {
                Some(at) => {
                    proof {
                        lemma_find_from(key@, tab@, 0);
                        assert(key@.subrange(at + 1, key.len() as int) =~= key@.skip(at + 1));
                    }
                    slice_of(&key, at + 1, key.len())
                },
                None => key,
            };
            out.push((string_of(&page), stream[i].1));
            i += 1;
        }
        assert(pairs(out@) =~= want);
        out
    }

    /// The number of pages.
    pub fn len(&self) -> (n: usize)
        ensures
            n == self@.anchors.len(),
    {
        self.anchors.len()
    }

    /// Whether there is no page.
    pub fn is_empty(&self) -> (b: bool)
        ensures
            b == (self@.anchors.len() == 0),
    {
        self.anchors.len() == 0
    }

    /// The number of all links: the sum of the counts.
    pub fn wiki_occurrences(&self) -> (n: u64)
        requires
            self.wf(),
        ensures
            n == total(self@.anchors),
    {
        self.wiki_occurrences
    }

    /// Adds a page with its count, and the count to the number of all
    /// links.
    pub fn add_anchor(&mut self, page: &str, count: u64)
        requires
            old(self).wf(),
            old(self).wiki_occurrences + count <= u64::MAX,
        ensures
            final(self).wf(),
            final(self).text == old(self).text,
            final(self)@.anchors == old(self)@.anchors.push((page@, count)),
            final(self).wiki_occurrences == old(self).wiki_occurrences + count,
    {
        self.anchors.push((String::from_str(page), count));
        self.wiki_occurrences = self.wiki_occurrences + count;
        proof {
            assert(pairs(self.anchors@) =~= pairs(old(self).anchors@).push((page@, count)));
            assert(pairs(self.anchors@).drop_last() =~= pairs(old(self).anchors@));
        }
    }

    /// The bytes of the surface text.
    pub fn text_bytes(&self) -> (b: &[u8])
        ensures
            b@ == vstd::utf8::encode_utf8(self.text@),
    {
        self.text.as_str().as_bytes()
    }

    /// Every page with its share of the links.
    pub fn get_all_wiki_matches(&self) -> (r: Vec<(String, Ratio)>)
        ensures
            shares(r@) == matches_above(
                self@.anchors,
                self.wiki_occurrences,
                Ratio { num: 0, den: 1 },
            ),
    {
        self.get_wiki_matches(Ratio::new(0, 1))
    }

    /// The pages whose share of the links is at least
    /// `commonness_threshold`, each with its share, in order.
    pub fn get_wiki_matches(&self, commonness_threshold: Ratio) -> (r: Vec<(String, Ratio)>)
        ensures
            shares(r@) == matches_above(self@.anchors, self.wiki_occurrences, commonness_threshold),
    {
        let ghost all = pairs(self.anchors@);
        let mut out: Vec<(String, Ratio)> = Vec::new();
        let mut i: usize = 0;
        assert(all.take(0) =~= Seq::<(Seq<char>, u64)>::empty());
        assert(shares(out@) =~= Seq::empty());
        while i < self.anchors.len()
            invariant
                i <= self.anchors.len(),
                all == pairs(self.anchors@),
                shares(out@) == matches_above(
                    all.take(i as int),
                    self.wiki_occurrences,
                    commonness_threshold,
                ),
            decreases self.anchors.len() - i,
        {
            proof {
                assert(all.take(i + 1).drop_last() =~= all.take(i as int));
                assert(all.take(i + 1).last() == all[i as int]);
            }
            let share = Ratio::new(self.anchors[i].1, self.wiki_occurrences);
            if share.ge(&commonness_threshold) {
                let ghost before = out@;
                out.push((self.anchors[i].0.clone(), share));
                assert(shares(out@) =~= shares(before).push((self.anchors@[i as int].0@, share)));
            }
            i += 1;
        }
        assert(all.take(self.anchors@.len() as int) =~= all);
        out
    }

    /// The share of the links that lead to `en_uri`: that of its first
    /// entry, or zero where no link leads there.
    pub fn calculate_commonness(&self, en_uri: &str) -> (r: Ratio)
        ensures
            r == (match first_count(self@.anchors, en_uri@) {
                Some(count) => commonness(count, self.wiki_occurrences),
                None => Ratio { num: 0, den: 1 },
            }),
    {
        let ghost all = pairs(self.anchors@);
        let mut i: usize = 0;
        assert(all.skip(0) =~= all);
        while i < self.anchors.len()
            invariant
                i <= self.anchors.len(),
                all == pairs(self.anchors@),
                first_count(all, en_uri@) == first_count(all.skip(i as int), en_uri@),
            decreases self.anchors.len() - i,
        {
            proof {
                assert(all.skip(i as int)[0] == all[i as int]);
                assert(all.skip(i as int).drop_first() =~= all.skip(i + 1));
            }
            if same_text(self.anchors[i].0.as_str(), en_uri) {
                return Ratio::new(self.anchors[i].1, self.wiki_occurrences);
            }
            i += 1;
        }
        Ratio::new(0, 1)
    }
}

/// Naming the pages of the matches does not change their counts.
pub proof fn lemma_total_of_paired(stream: Seq<(Seq<char>, u64)>)
    ensures
        total(paired(stream)) == total(stream),
    decreases stream.len(),
{
    if stream.len() > 0 {
        lemma_total_of_paired(stream.drop_last());
        assert(paired(stream).drop_last() =~= paired(stream.drop_last()));
    }
}

/// Why a store of surface forms failed.
#[derive(Clone, Debug, PartialEq)]
pub enum SurfaceFormStoreError {
    Unknown,
    NoSuchKey,
    SerializeError(String),
    Generic(String),
    PutError(String),
    GetError(String),
}

impl SurfaceFormStoreError {
    /// The message of the error.
    pub fn to_string(&self) -> (s: String)
        ensures
            s@ == (match self {
                SurfaceFormStoreError::Generic(e) => "Error: "@ + e@,
                SurfaceFormStoreError::PutError(e) => "Put error: "@ + e@,
                SurfaceFormStoreError::GetError(e) => "Get error: "@ + e@,
                _ => "Unknown error"@,
            }),
    {
        match self {
            SurfaceFormStoreError::Generic(e) => String::from_str("Error: ").concat(e.as_str()),
            SurfaceFormStoreError::PutError(e) => String::from_str("Put error: ").concat(
                e.as_str(),
            ),
            SurfaceFormStoreError::GetError(e) => String::from_str("Get error: ").concat(
                e.as_str(),
            ),
            _ => String::from_str("Unknown error"),
        }
    }
}

} // verus!
