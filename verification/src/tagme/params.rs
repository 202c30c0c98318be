//! The thresholds of a run.

use crate::ratio::Ratio;
use vstd::prelude::*;

verus! {

/// The thresholds of a run.
#[derive(Clone, Copy, Debug, PartialEq, Eq)]
pub struct TagMeParams {
    /// The least link probability of a mention.
    pub link_probability_threshold: Ratio,
    /// The least commonness of a candidate page.
    pub candidate_mention_threshold: Ratio,
    /// The share of the candidates that is kept by their score.
    pub k_th: Ratio,
    /// The least number of words of a mention.
    pub ngram_min: usize,
    /// The greatest number of words of a mention.
    pub ngram_max: usize,
}

impl TagMeParams {
    pub fn with_link_probability_threshold(self, link_probability_threshold: Ratio) -> (p: Self)
        ensures
            p == (TagMeParams { link_probability_threshold, ..self }),
    {
        TagMeParams { link_probability_threshold, ..self }
    }

    pub fn with_candidate_mention_threshold(self, candidate_mention_threshold: Ratio) -> (p: Self)
        ensures
            p == (TagMeParams { candidate_mention_threshold, ..self }),
    {
        TagMeParams { candidate_mention_threshold, ..self }
    }

    pub fn with_k_th(self, k_th: Ratio) -> (p: Self)
        ensures
            p == (TagMeParams { k_th, ..self }),
    {
        TagMeParams { k_th, ..self }
    }

    pub fn with_ngram_min(self, ngram_min: usize) -> (p: Self)
        ensures
            p == (TagMeParams { ngram_min, ..self }),
    {
        TagMeParams { ngram_min, ..self }
    }

    pub fn with_ngram_max(self, ngram_max: usize) -> (p: Self)
        ensures
            p == (TagMeParams { ngram_max, ..self }),
    {
        TagMeParams { ngram_max, ..self }
    }

    /// The thresholds are fractions with denominators that are not zero.
    pub open spec fn wf(self) -> bool {
        &&& self.link_probability_threshold.den > 0
        &&& self.candidate_mention_threshold.den > 0
        &&& self.k_th.den > 0
    }
}

impl Default for TagMeParams {
    fn default() -> (p: TagMeParams)
        ensures
            p.wf(),
            p == (TagMeParams {
                link_probability_threshold: Ratio { num: 1, den: 1000 },
                candidate_mention_threshold: Ratio { num: 2, den: 100 },
                k_th: Ratio { num: 3, den: 10 },
                ngram_max: 6,
                ngram_min: 2,
            }),
    {
        TagMeParams {
            link_probability_threshold: Ratio { num: 1, den: 1000 },
            candidate_mention_threshold: Ratio { num: 2, den: 100 },
            k_th: Ratio { num: 3, den: 10 },
            ngram_max: 6,
            ngram_min: 2,
        }
    }
}

} // verus!
