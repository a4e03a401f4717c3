//! The phonetic matchers. `SoundexMatcher` scores 1.0 exactly when the
//! whole cleaned names share a Soundex code, else 0.0.
//! `SoundexJaccardMatcher` handles token transposition ("James Black"
//! against "Black James"): it encodes each token of the cleaned name and
//! takes the overlap coefficient of the two code sets.
use crate::prelude::{clean_spec, is_clean_char, is_letter, lemma_clean_props, str_eq, Clean,
    Matcher, Named, SCORE_ONE, Weighted};
use crate::shared::compute::{dedup_strings, jaccard_fp, jaccard_index, lemma_jaccard_identical,
    lemma_jaccard_range, lemma_tokens_nonempty, lemma_tokens_wf, split_tokens, tokens_spec,
    views_of};
use crate::soundex::encode::{apply_soundex, lemma_clean_has_letter, lemma_has_letter,
    soundex_spec};
use vstd::prelude::*;
use vstd::seq_lib::*;
use vstd::string::*;

verus! {

/// The Soundex codes of a string's blank-separated tokens, in order.
pub open spec fn codes_of(s: Seq<char>) -> Seq<Seq<char>> {
    tokens_spec(s).map_values(|t: Seq<char>| soundex_spec(t))
}

/// Scores 1.0 when the two cleaned names sound alike — share one
/// Soundex code — and 0.0 otherwise.
pub struct SoundexMatcher {
    name: String,
    weight: u64,
}

impl SoundexMatcher {
    pub fn new(weight: Option<u64>) -> (r: SoundexMatcher)
        requires
            match weight {
                Some(w) => w <= SCORE_ONE,
                None => true,
            },
        ensures
            r.wf(),
            r.name_spec() == "Soundex"@,
            r.weight_spec() == (match weight {
                Some(w) => w,
                None => SCORE_ONE,
            }),
    {
        let w = match weight {
            Some(w) => w,
            None => SCORE_ONE,
        };
        SoundexMatcher { name: "Soundex".to_owned(), weight: w }
    }

    pub fn default() -> (r: SoundexMatcher)
        ensures
            r.wf(),
            r.name_spec() == "Soundex"@,
            r.weight_spec() == SCORE_ONE,
    {
        SoundexMatcher { name: "Soundex".to_owned(), weight: SCORE_ONE }
    }
}

impl Clean for SoundexMatcher {

}

impl Named for SoundexMatcher {
    closed spec fn name_spec(&self) -> Seq<char> {
        self.name@
    }

    fn get_name(&self) -> (r: &str) {
        self.name.as_str()
    }
}

impl Weighted for SoundexMatcher {
    closed spec fn wf(&self) -> bool {
        self.weight <= SCORE_ONE
    }

    closed spec fn weight_spec(&self) -> u64 {
        self.weight
    }

    proof fn lemma_weight_in_range(&self) {
    }

    fn get_weight(&self) -> (r: u64) {
        self.weight
    }

    fn set_weight(&mut self, weight: u64)
        ensures
            final(self).name_spec() == old(self).name_spec(),
            forall|a: Seq<char>, b: Seq<char>|
                #[trigger] final(self).score_spec(a, b) == old(self).score_spec(a, b),
    {
        self.weight = weight;
    }
}

impl Matcher for SoundexMatcher {
    closed spec fn score_spec(&self, s1: Seq<char>, s2: Seq<char>) -> int {
        if soundex_spec(clean_spec(s1)) == soundex_spec(clean_spec(s2)) {
            SCORE_ONE as int
        } else {
            0
        }
    }

    proof fn lemma_score_in_range(&self, s1: Seq<char>, s2: Seq<char>) {
    }

    fn get_score(&self, s1: &str, s2: &str) -> (r: u64) {
        let cleaned_s1 = self.clean(s1);
        proof {
            if clean_spec(s1@).len() > 0 {
                lemma_clean_has_letter(s1@);
            }
        }
        let soundex_s1 = apply_soundex(cleaned_s1.as_str());
        let cleaned_s2 = self.clean(s2);
        proof {
            if clean_spec(s2@).len() > 0 {
                lemma_clean_has_letter(s2@);
            }
        }
        let soundex_s2 = apply_soundex(cleaned_s2.as_str());
        if str_eq(soundex_s1.as_str(), soundex_s2.as_str()) {
            SCORE_ONE
        } else {
            0
        }
    }
}

/// Any name sounds like itself: the Soundex matcher scores 1.0 on equal
/// inputs, empty ones included.
pub proof fn lemma_soundex_matcher_reflexive(m: &SoundexMatcher, s: Seq<char>)
    requires
        m.wf(),
    ensures
        m.score_spec(s, s) == SCORE_ONE,
{
}

/// Encodes each token of the cleaned name and scores the overlap
/// coefficient of the two resulting Soundex code sets.
pub struct SoundexJaccardMatcher {
    name: String,
    weight: u64,
}

impl SoundexJaccardMatcher {
    pub fn new(weight: Option<u64>) -> (r: SoundexJaccardMatcher)
        requires
            match weight {
                Some(w) => w <= SCORE_ONE,
                None => true,
            },
        ensures
            r.wf(),
            r.name_spec() == "Soundex-Jaccard"@,
            r.weight_spec() == (match weight {
                Some(w) => w,
                None => SCORE_ONE,
            }),
    {
        let w = match weight {
            Some(w) => w,
            None => SCORE_ONE,
        };
        SoundexJaccardMatcher { name: "Soundex-Jaccard".to_owned(), weight: w }
    }

    pub fn default() -> (r: SoundexJaccardMatcher)
        ensures
            r.wf(),
            r.name_spec() == "Soundex-Jaccard"@,
            r.weight_spec() == SCORE_ONE,
    {
        SoundexJaccardMatcher { name: "Soundex-Jaccard".to_owned(), weight: SCORE_ONE }
    }

    /// Encodes every token of an already-cleaned name in its Soundex
    /// form and collects the distinct codes.
    fn as_tokenized_set(&self, name: &str) -> (r: Vec<String>)
        requires
            forall|i: int| 0 <= i < name@.len() ==> is_clean_char(#[trigger] name@[i]),
        ensures
            views_of(r@).no_duplicates(),
            views_of(r@).to_set() == codes_of(name@).to_set(),
    {
        let tokens = split_tokens(name);
        proof {
            lemma_tokens_wf(name@);
        }
        let mut codes: Vec<String> = Vec::new();
        let n = tokens.len();
        proof {
            assert(views_of(codes@) =~= codes_of(name@).take(0));
        }
        let mut i: usize = 0;
        while i < n
            invariant
                n == tokens@.len(),
                views_of(tokens@) == tokens_spec(name@),
                forall|i2: int, j: int|
                    0 <= i2 < tokens_spec(name@).len() && 0 <= j < tokens_spec(name@)[i2].len()
                        ==> (#[trigger] tokens_spec(name@)[i2][j]) != ' ',
                forall|i2: int, j: int|
                    0 <= i2 < tokens_spec(name@).len() && 0 <= j < tokens_spec(name@)[i2].len()
                        ==> name@.contains(#[trigger] tokens_spec(name@)[i2][j]),
                forall|i2: int|
                    0 <= i2 < tokens_spec(name@).len() ==> (#[trigger] tokens_spec(
                        name@,
                    )[i2]).len() > 0,
                forall|i2: int| 0 <= i2 < name@.len() ==> is_clean_char(#[trigger] name@[i2]),
                0 <= i <= n,
                views_of(codes@) == codes_of(name@).take(i as int),
            decreases n - i,
        {
            let ghost t = tokens@[i as int]@;
            proof {
                assert(views_of(tokens@)[i as int] == t);
                assert(t.len() > 0);
                assert(t[0] != ' ');
                assert(name@.contains(t[0]));
                let w = choose|w: int| 0 <= w < name@.len() && name@[w] == t[0];
                assert(is_clean_char(name@[w]));
                assert(is_letter(t[0]));
                lemma_has_letter(t, 0);
            }
            let code = apply_soundex(tokens[i].as_str());
            let ghost old_codes = views_of(codes@);
            codes.push(code);
            proof {
                assert(views_of(codes@) =~= old_codes.push(soundex_spec(t)));
                assert(codes_of(name@).take(i + 1 as int) =~= codes_of(name@).take(i as int).push(
                    codes_of(name@)[i as int],
                ));
                assert(codes_of(name@)[i as int] == soundex_spec(t));
            }
            i += 1;
        }
        proof {
            assert(codes_of(name@).take(n as int) =~= codes_of(name@));
        }
        dedup_strings(&codes)
    }
}

impl Clean for SoundexJaccardMatcher {

}

impl Named for SoundexJaccardMatcher {
    closed spec fn name_spec(&self) -> Seq<char> {
        self.name@
    }

    fn get_name(&self) -> (r: &str) {
        self.name.as_str()
    }
}

impl Weighted for SoundexJaccardMatcher {
    closed spec fn wf(&self) -> bool {
        self.weight <= SCORE_ONE
    }

    closed spec fn weight_spec(&self) -> u64 {
        self.weight
    }

    proof fn lemma_weight_in_range(&self) {
    }

    fn get_weight(&self) -> (r: u64) {
        self.weight
    }

    fn set_weight(&mut self, weight: u64)
        ensures
            final(self).name_spec() == old(self).name_spec(),
            forall|a: Seq<char>, b: Seq<char>|
                #[trigger] final(self).score_spec(a, b) == old(self).score_spec(a, b),
    {
        self.weight = weight;
    }
}

impl Matcher for SoundexJaccardMatcher {
    closed spec fn score_spec(&self, s1: Seq<char>, s2: Seq<char>) -> int {
        jaccard_fp(codes_of(clean_spec(s1)).to_set(), codes_of(clean_spec(s2)).to_set())
    }

    proof fn lemma_score_in_range(&self, s1: Seq<char>, s2: Seq<char>) {
        seq_to_set_is_finite(codes_of(clean_spec(s1)));
        seq_to_set_is_finite(codes_of(clean_spec(s2)));
        lemma_jaccard_range(codes_of(clean_spec(s1)).to_set(), codes_of(clean_spec(s2)).to_set());
    }

    fn get_score(&self, s1: &str, s2: &str) -> (r: u64) {
        let cleaned_s1 = self.clean(s1);
        proof {
            lemma_clean_props(s1@);
        }
        let name_1_soundex_set = self.as_tokenized_set(cleaned_s1.as_str());
        let cleaned_s2 = self.clean(s2);
        proof {
            lemma_clean_props(s2@);
        }
        let name_2_soundex_set = self.as_tokenized_set(cleaned_s2.as_str());
        jaccard_index(&name_1_soundex_set, &name_2_soundex_set)
    }
}

/// A name with any letter in it fully matches itself under the
/// Soundex-Jaccard matcher: its code set overlaps itself completely.
pub proof fn lemma_soundex_jaccard_matcher_reflexive(m: &SoundexJaccardMatcher, s: Seq<char>)
    requires
        m.wf(),
        clean_spec(s).len() > 0,
    ensures
        m.score_spec(s, s) == SCORE_ONE,
{
    let c = clean_spec(s);
    lemma_clean_props(s);
    assert(c[0] != ' ');
    lemma_tokens_nonempty(c);
    assert(codes_of(c).len() > 0);
    seq_to_set_is_finite(codes_of(c));
    codes_of(c).lemma_cardinality_of_empty_set_is_0();
    assert(codes_of(c).to_set().len() > 0);
    lemma_jaccard_identical(codes_of(c).to_set());
}

} // verus!
