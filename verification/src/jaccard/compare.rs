//! The token-set matcher: splits each cleaned name into word tokens and
//! scores the overlap coefficient of the two token sets.
use crate::prelude::{clean_spec, lemma_clean_props, Clean, Matcher, Named, SCORE_ONE, Weighted};
use crate::shared::compute::{dedup_strings, jaccard_fp, jaccard_index, lemma_jaccard_identical,
    lemma_jaccard_range, lemma_tokens_nonempty, split_tokens, token_set, views_of};
use vstd::prelude::*;
use vstd::seq_lib::*;
use vstd::string::*;

verus! {

/// Scores two names by the overlap coefficient of their word-token
/// sets: 1.0 when the smaller set lies entirely in the larger.
pub struct JaccardMatcher {
    name: String,
    weight: u64,
}

impl JaccardMatcher {
    pub fn new(weight: Option<u64>) -> (r: JaccardMatcher)
        requires
            match weight {
                Some(w) => w <= SCORE_ONE,
                None => true,
            },
        ensures
            r.wf(),
            r.name_spec() == "Jaccard"@,
            r.weight_spec() == (match weight {
                Some(w) => w,
                None => SCORE_ONE,
            }),
    {
        let w = match weight {
            Some(w) => w,
            None => SCORE_ONE,
        };
        JaccardMatcher { name: "Jaccard".to_owned(), weight: w }
    }

    pub fn default() -> (r: JaccardMatcher)
        ensures
            r.wf(),
            r.name_spec() == "Jaccard"@,
            r.weight_spec() == SCORE_ONE,
    {
        JaccardMatcher { name: "Jaccard".to_owned(), weight: SCORE_ONE }
    }

    /// The distinct blank-separated tokens of an already-cleaned name.
    fn as_tokenized_set(&self, string: &str) -> (r: Vec<String>)
        ensures
            views_of(r@).no_duplicates(),
            views_of(r@).to_set() == token_set(string@),
    {
        let tokens = split_tokens(string);
        dedup_strings(&tokens)
    }
}

impl Clean for JaccardMatcher {

}

impl Named for JaccardMatcher {
    closed spec fn name_spec(&self) -> Seq<char> {
        self.name@
    }

    fn get_name(&self) -> (r: &str) {
        self.name.as_str()
    }
}

impl Weighted for JaccardMatcher {
    closed spec fn wf(&self) -> bool {
        self.weight <= SCORE_ONE
    }

    closed spec fn weight_spec(&self) -> u64 {
        self.weight
    }

    proof fn lemma_weight_in_range(&self) {
    }

    fn get_weight(&self) -> (r: u64) {
        self.weight
    }

    fn set_weight(&mut self, weight: u64)
        ensures
            final(self).name_spec() == old(self).name_spec(),
            forall|a: Seq<char>, b: Seq<char>|
                #[trigger] final(self).score_spec(a, b) == old(self).score_spec(a, b),
    {
        self.weight = weight;
    }
}

impl Matcher for JaccardMatcher {
    closed spec fn score_spec(&self, s1: Seq<char>, s2: Seq<char>) -> int {
        jaccard_fp(token_set(clean_spec(s1)), token_set(clean_spec(s2)))
    }

    proof fn lemma_score_in_range(&self, s1: Seq<char>, s2: Seq<char>) {
        seq_to_set_is_finite(crate::shared::compute::tokens_spec(clean_spec(s1)));
        seq_to_set_is_finite(crate::shared::compute::tokens_spec(clean_spec(s2)));
        lemma_jaccard_range(token_set(clean_spec(s1)), token_set(clean_spec(s2)));
    }

    fn get_score(&self, s1: &str, s2: &str) -> (r: u64) {
        let cleaned_s1 = self.clean(s1);
        let tokenized_s1 = self.as_tokenized_set(cleaned_s1.as_str());
        let cleaned_s2 = self.clean(s2);
        let tokenized_s2 = self.as_tokenized_set(cleaned_s2.as_str());
        jaccard_index(&tokenized_s1, &tokenized_s2)
    }
}

/// A name with any letter in it fully matches itself under the Jaccard
/// matcher: its token set overlaps itself completely.
pub proof fn lemma_jaccard_matcher_reflexive(m: &JaccardMatcher, s: Seq<char>)
    requires
        m.wf(),
        clean_spec(s).len() > 0,
    ensures
        m.score_spec(s, s) == SCORE_ONE,
{
    let c = clean_spec(s);
    lemma_clean_props(s);
    assert(c[0] != ' ');
    lemma_tokens_nonempty(c);
    seq_to_set_is_finite(crate::shared::compute::tokens_spec(c));
    crate::shared::compute::tokens_spec(c).lemma_cardinality_of_empty_set_is_0();
    assert(token_set(c).len() > 0);
    lemma_jaccard_identical(token_set(c));
}

} // verus!
