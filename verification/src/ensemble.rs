//! The ensemble layer: an ordered collection of matchers whose weighted
//! scores are summed into one aggregate judgment, with optional equal
//! re-weighting and order-preserving batch scoring of a candidate list.
use crate::jaccard::compare::{lemma_jaccard_matcher_reflexive, JaccardMatcher};
use crate::jaro::compare::{lemma_jaro_winkler_matcher_reflexive, JaroWinklerMatcher};
use crate::prelude::{clean_spec, weighted, Clean, Matcher, MatchResult, Named, SCORE_ONE,
    Weighted};
use crate::soundex::compare::{lemma_soundex_jaccard_matcher_reflexive,
    lemma_soundex_matcher_reflexive, SoundexJaccardMatcher, SoundexMatcher};
use rayon::iter::{IntoParallelRefIterator, ParallelIterator};
use vstd::prelude::*;
use vstd::string::*;
use vstd::arithmetic::div_mod::{lemma_div_nonincreasing, lemma_div_pos_is_pos,
    lemma_div_multiples_vanish, lemma_fundamental_div_mod};

verus! {

/// One matcher of the ensemble: the closed set of algorithms, dispatched
/// by variant.
pub enum MatcherKind {
    JaroWinkler(JaroWinklerMatcher),
    Soundex(SoundexMatcher),
    SoundexJaccard(SoundexJaccardMatcher),
    Jaccard(JaccardMatcher),
}

impl Clean for MatcherKind {

}

impl Named for MatcherKind {
    open spec fn name_spec(&self) -> Seq<char> {
        match self {
            MatcherKind::JaroWinkler(m) => m.name_spec(),
            MatcherKind::Soundex(m) => m.name_spec(),
            MatcherKind::SoundexJaccard(m) => m.name_spec(),
            MatcherKind::Jaccard(m) => m.name_spec(),
        }
    }

    fn get_name(&self) -> (r: &str) {
        match self {
            MatcherKind::JaroWinkler(m) => m.get_name(),
            MatcherKind::Soundex(m) => m.get_name(),
            MatcherKind::SoundexJaccard(m) => m.get_name(),
            MatcherKind::Jaccard(m) => m.get_name(),
        }
    }
}

impl Weighted for MatcherKind {
    open spec fn wf(&self) -> bool {
        match self {
            MatcherKind::JaroWinkler(m) => m.wf(),
            MatcherKind::Soundex(m) => m.wf(),
            MatcherKind::SoundexJaccard(m) => m.wf(),
            MatcherKind::Jaccard(m) => m.wf(),
        }
    }

    open spec fn weight_spec(&self) -> u64 {
        match self {
            MatcherKind::JaroWinkler(m) => m.weight_spec(),
            MatcherKind::Soundex(m) => m.weight_spec(),
            MatcherKind::SoundexJaccard(m) => m.weight_spec(),
            MatcherKind::Jaccard(m) => m.weight_spec(),
        }
    }

    proof fn lemma_weight_in_range(&self) {
        match self {
            MatcherKind::JaroWinkler(m) => m.lemma_weight_in_range(),
            MatcherKind::Soundex(m) => m.lemma_weight_in_range(),
            MatcherKind::SoundexJaccard(m) => m.lemma_weight_in_range(),
            MatcherKind::Jaccard(m) => m.lemma_weight_in_range(),
        }
    }

    fn get_weight(&self) -> (r: u64) {
        match self {
            MatcherKind::JaroWinkler(m) => m.get_weight(),
            MatcherKind::Soundex(m) => m.get_weight(),
            MatcherKind::SoundexJaccard(m) => m.get_weight(),
            MatcherKind::Jaccard(m) => m.get_weight(),
        }
    }

    fn set_weight(&mut self, weight: u64)
        ensures
            final(self).name_spec() == old(self).name_spec(),
            forall|a: Seq<char>, b: Seq<char>|
                #[trigger] final(self).score_spec(a, b) == old(self).score_spec(a, b),
    {
        match self {
            MatcherKind::JaroWinkler(m) => m.set_weight(weight),
            MatcherKind::Soundex(m) => m.set_weight(weight),
            MatcherKind::SoundexJaccard(m) => m.set_weight(weight),
            MatcherKind::Jaccard(m) => m.set_weight(weight),
        }
    }
}

impl Matcher for MatcherKind {
    open spec fn score_spec(&self, s1: Seq<char>, s2: Seq<char>) -> int {
        match self {
            MatcherKind::JaroWinkler(m) => m.score_spec(s1, s2),
            MatcherKind::Soundex(m) => m.score_spec(s1, s2),
            MatcherKind::SoundexJaccard(m) => m.score_spec(s1, s2),
            MatcherKind::Jaccard(m) => m.score_spec(s1, s2),
        }
    }

    proof fn lemma_score_in_range(&self, s1: Seq<char>, s2: Seq<char>) {
        match self {
            MatcherKind::JaroWinkler(m) => m.lemma_score_in_range(s1, s2),
            MatcherKind::Soundex(m) => m.lemma_score_in_range(s1, s2),
            MatcherKind::SoundexJaccard(m) => m.lemma_score_in_range(s1, s2),
            MatcherKind::Jaccard(m) => m.lemma_score_in_range(s1, s2),
        }
    }

    fn get_score(&self, s1: &str, s2: &str) -> (r: u64) {
        match self {
            MatcherKind::JaroWinkler(m) => m.get_score(s1, s2),
            MatcherKind::Soundex(m) => m.get_score(s1, s2),
            MatcherKind::SoundexJaccard(m) => m.get_score(s1, s2),
            MatcherKind::Jaccard(m) => m.get_score(s1, s2),
        }
    }
}

/// Every algorithm scores a full match on two equal inputs, as long as a
/// letter survives the cleaning (reflexivity on exact match).
pub proof fn lemma_matcher_self_match(m: &MatcherKind, s: Seq<char>)
    requires
        m.wf(),
        clean_spec(s).len() > 0,
    ensures
        m.score_spec(s, s) == SCORE_ONE,
{
    match m {
        MatcherKind::JaroWinkler(inner) => lemma_jaro_winkler_matcher_reflexive(inner, s),
        MatcherKind::Soundex(inner) => lemma_soundex_matcher_reflexive(inner, s),
        MatcherKind::SoundexJaccard(inner) => lemma_soundex_jaccard_matcher_reflexive(inner, s),
        MatcherKind::Jaccard(inner) => lemma_jaccard_matcher_reflexive(inner, s),
    }
}

/// The read-only record of one ensemble comparison: both input names,
/// the aggregate score, and each matcher's detailed result in order.
pub struct EnsembleResult {
    pub name1: String,
    pub name2: String,
    pub score: u64,
    pub results: Vec<MatchResult>,
}

/// The sum of the matchers' weighted scores, in fixed point.
pub open spec fn aggregate_spec(ms: Seq<MatcherKind>, s1: Seq<char>, s2: Seq<char>) -> int
    decreases ms.len(),
{
    if ms.len() == 0 {
        0
    } else {
        aggregate_spec(ms.drop_last(), s1, s2) + weighted(
            ms.last().weight_spec() as int,
            ms.last().score_spec(s1, s2),
        )
    }
}

/// One matcher's record against its matcher.
pub open spec fn mr_matches(r: MatchResult, m: MatcherKind, s1: Seq<char>, s2: Seq<char>) -> bool {
    &&& r.algorithm@ == m.name_spec()
    &&& r.weight == m.weight_spec()
    &&& r.absolute_score as int == m.score_spec(s1, s2)
    &&& r.weighted_score as int == weighted(m.weight_spec() as int, m.score_spec(s1, s2))
}

/// A full ensemble record against the ensemble's matchers.
pub open spec fn er_matches(r: EnsembleResult, ms: Seq<MatcherKind>, s1: Seq<char>, s2: Seq<char>) -> bool {
    &&& r.name1@ == s1
    &&& r.name2@ == s2
    &&& r.score as int == aggregate_spec(ms, s1, s2)
    &&& r.results@.len() == ms.len()
    &&& forall|i: int| 0 <= i < ms.len() ==> mr_matches(#[trigger] r.results@[i], ms[i], s1, s2)
}

/// An ordered collection of matchers scored together.
pub struct Ensemble {
    pub matchers: Vec<MatcherKind>,
}

impl Ensemble {
    /// Every matcher in the ensemble is well-formed.
    pub open spec fn wf(&self) -> bool {
        forall|i: int| 0 <= i < self.matchers@.len() ==> (#[trigger] self.matchers@[i]).wf()
    }

    /// The aggregate of this many matchers always fits the score type.
    pub open spec fn sum_fits(&self) -> bool {
        self.matchers@.len() * (SCORE_ONE as int) <= u64::MAX as int
    }

    pub fn new(matchers: Vec<MatcherKind>) -> (r: Ensemble)
        ensures
            r.matchers == matchers,
    {
        Ensemble { matchers }
    }

    /// Gives every matcher the weight `1/N`, so that the weighted
    /// full-match scores of an ensemble of `N` matchers sum to 1.0 (up
    /// to the fixed-point remainder of the division). An empty ensemble
    /// is left alone.
    pub fn set_equal_weight(&mut self)
        requires
            old(self).wf(),
        ensures
            final(self).wf(),
            final(self).matchers@.len() == old(self).matchers@.len(),
            old(self).matchers@.len() > 0 ==> forall|i: int|
                0 <= i < final(self).matchers@.len() ==> (#[trigger] final(self).matchers@[i]).weight_spec()
                    == SCORE_ONE / (old(self).matchers@.len() as u64),
            forall|i: int|
                0 <= i < final(self).matchers@.len() ==> (#[trigger] final(self).matchers@[i]).name_spec()
                    == old(self).matchers@[i].name_spec(),
            forall|i: int, a: Seq<char>, b: Seq<char>|
                0 <= i < final(self).matchers@.len() ==> (#[trigger] final(self).matchers@[i].score_spec(
                    a,
                    b,
                )) == old(self).matchers@[i].score_spec(a, b),
    {
        let count = self.matchers.len();
        if count == 0 {
            return ;
        }
        let weight = SCORE_ONE / (count as u64);
        proof {
            lemma_div_nonincreasing(SCORE_ONE as int, count as int);
            lemma_div_pos_is_pos(SCORE_ONE as int, count as int);
        }
        let ghost ms0 = self.matchers@;
        let mut i: usize = 0;
        while i < count
            invariant
                count == self.matchers@.len(),
                count == ms0.len(),
                weight <= SCORE_ONE,
                weight == SCORE_ONE / (count as u64),
                0 <= i <= count,
                forall|k: int| 0 <= k < count ==> (#[trigger] self.matchers@[k]).wf(),
                forall|k: int|
                    0 <= k < i ==> (#[trigger] self.matchers@[k]).weight_spec() == weight,
                forall|k: int|
                    0 <= k < count ==> (#[trigger] self.matchers@[k]).name_spec()
                        == ms0[k].name_spec(),
                forall|k: int, a: Seq<char>, b: Seq<char>|
                    0 <= k < count ==> (#[trigger] self.matchers@[k].score_spec(a, b))
                        == ms0[k].score_spec(a, b),
                i < count ==> forall|k: int| i <= k < count ==> self.matchers@[k] == ms0[k],
            decreases count - i,
        {
            self.matchers[i].set_weight(weight);
            i += 1;
        }
    }

    /// The sum of each matcher's weighted score for the pair of names.
    /// No normalization happens here: if the weights do not sum to 1 the
    /// aggregate may exceed 1.0, which is intentional.
    pub fn get_aggregated_score(&self, name1: &str, name2: &str) -> (sum: u64)
        requires
            self.wf(),
            self.sum_fits(),
            name1@.len() <= i32::MAX as int,
            name2@.len() <= i32::MAX as int,
        ensures
            sum as int == aggregate_spec(self.matchers@, name1@, name2@),
    {
        let mut sum: u64 = 0;
        let n = self.matchers.len();
        proof {
            assert(self.matchers@.take(0) =~= Seq::<MatcherKind>::empty());
        }
        let mut i: usize = 0;
        while i < n
            invariant
                n == self.matchers@.len(),
                self.wf(),
                self.sum_fits(),
                name1@.len() <= i32::MAX as int,
                name2@.len() <= i32::MAX as int,
                0 <= i <= n,
                sum as int == aggregate_spec(self.matchers@.take(i as int), name1@, name2@),
                sum as int <= i * (SCORE_ONE as int),
            decreases n - i,
        {
            let score = self.matchers[i].get_weighted_score(name1, name2);
            proof {
                assert(self.matchers@.take(i + 1 as int).drop_last() =~= self.matchers@.take(
                    i as int,
                ));
                assert(self.matchers@.take(i + 1 as int).last() == self.matchers@[i as int]);
                assert((i + 1) * (SCORE_ONE as int) == i * (SCORE_ONE as int) + SCORE_ONE as int)
                    by (nonlinear_arith);
                assert(i * (SCORE_ONE as int) <= n * (SCORE_ONE as int)) by (nonlinear_arith)
                    requires
                        0 <= i <= n,
                {
                }
                assert((i + 1) * (SCORE_ONE as int) <= n * (SCORE_ONE as int)) by (nonlinear_arith)
                    requires
                        0 <= i + 1 <= n,
                {
                }
            }
            sum = sum + score;
            i += 1;
        }
        proof {
            assert(self.matchers@.take(n as int) =~= self.matchers@);
        }
        sum
    }

    /// Each matcher's detailed result for the pair, in ensemble order.
    pub fn get_match_results(&self, name1: &str, name2: &str) -> (results: Vec<MatchResult>)
        requires
            self.wf(),
            name1@.len() <= i32::MAX as int,
            name2@.len() <= i32::MAX as int,
        ensures
            results@.len() == self.matchers@.len(),
            forall|i: int|
                0 <= i < self.matchers@.len() ==> mr_matches(
                    #[trigger] results@[i],
                    self.matchers@[i],
                    name1@,
                    name2@,
                ),
    {
        let mut results: Vec<MatchResult> = Vec::new();
        let n = self.matchers.len();
        let mut i: usize = 0;
        while i < n
            invariant
                n == self.matchers@.len(),
                self.wf(),
                name1@.len() <= i32::MAX as int,
                name2@.len() <= i32::MAX as int,
                0 <= i <= n,
                results@.len() == i,
                forall|k: int|
                    0 <= k < i ==> mr_matches(
                        #[trigger] results@[k],
                        self.matchers@[k],
                        name1@,
                        name2@,
                    ),
            decreases n - i,
        {
            let match_result = self.matchers[i].get_match_result(name1, name2);
            results.push(match_result);
            i += 1;
        }
        results
    }

    /// The full record of one comparison: both names, the aggregate
    /// score, and the per-matcher results in order.
    pub fn get_ensemble_result(&self, name1: &str, name2: &str) -> (r: EnsembleResult)
        requires
            self.wf(),
            self.sum_fits(),
            name1@.len() <= i32::MAX as int,
            name2@.len() <= i32::MAX as int,
        ensures
            er_matches(r, self.matchers@, name1@, name2@),
    {
        let results = self.get_match_results(name1, name2);
        let score = self.get_aggregated_score(name1, name2);
        EnsembleResult { name1: name1.to_owned(), name2: name2.to_owned(), score, results }
    }

    /// Relies on rayon's `par_iter`, `map` and `collect`: collecting an
    /// indexed parallel iterator into a `Vec` keeps the input order, so
    /// entry `i` is the closure's result on `name_list[i]`; the closure
    /// only calls the verified `get_ensemble_result`, whose contract
    /// pins each entry down. Scoring is read-only, so the sharing is
    /// race-free.
    #[verifier::external_body]
    fn par_ensemble_results(&self, query_name: &str, name_list: &Vec<&str>) -> (r: Vec<
        EnsembleResult>)
        requires
            self.wf(),
            self.sum_fits(),
            query_name@.len() <= i32::MAX as int,
            forall|i: int|
                0 <= i < name_list@.len() ==> (#[trigger] name_list@[i])@.len() <= i32::MAX as int,
        ensures
            r@.len() == name_list@.len(),
            forall|i: int|
                0 <= i < name_list@.len() ==> er_matches(
                    #[trigger] r@[i],
                    self.matchers@,
                    query_name@,
                    name_list@[i]@,
                ),
    {
        name_list.par_iter().map(|name| self.get_ensemble_result(query_name, name)).collect()
    }

    /// Scores the query against every candidate in parallel. The result
    /// keeps the candidate order: entry `i` is the ensemble record for
    /// `name_list[i]`.
    pub fn get_ensemble_result_arr(&self, query_name: &str, name_list: &Vec<&str>) -> (r: Vec<
        EnsembleResult>)
        requires
            self.wf(),
            self.sum_fits(),
            query_name@.len() <= i32::MAX as int,
            forall|i: int|
                0 <= i < name_list@.len() ==> (#[trigger] name_list@[i])@.len() <= i32::MAX as int,
        ensures
            r@.len() == name_list@.len(),
            forall|i: int|
                0 <= i < name_list@.len() ==> er_matches(
                    #[trigger] r@[i],
                    self.matchers@,
                    query_name@,
                    name_list@[i]@,
                ),
    {
        self.par_ensemble_results(query_name, name_list)
    }

    /// The same batch, computed one candidate at a time on the calling
    /// thread. Its contract is the parallel batch's, word for word.
    pub fn get_ensemble_result_arr_seq(&self, query_name: &str, name_list: &Vec<&str>) -> (r: Vec<
        EnsembleResult>)
        requires
            self.wf(),
            self.sum_fits(),
            query_name@.len() <= i32::MAX as int,
            forall|i: int|
                0 <= i < name_list@.len() ==> (#[trigger] name_list@[i])@.len() <= i32::MAX as int,
        ensures
            r@.len() == name_list@.len(),
            forall|i: int|
                0 <= i < name_list@.len() ==> er_matches(
                    #[trigger] r@[i],
                    self.matchers@,
                    query_name@,
                    name_list@[i]@,
                ),
    {
        let mut r: Vec<EnsembleResult> = Vec::new();
        let n = name_list.len();
        let mut i: usize = 0;
        while i < n
            invariant
                n == name_list@.len(),
                self.wf(),
                self.sum_fits(),
                query_name@.len() <= i32::MAX as int,
                forall|k: int|
                    0 <= k < name_list@.len() ==> (#[trigger] name_list@[k])@.len()
                        <= i32::MAX as int,
                0 <= i <= n,
                r@.len() == i,
                forall|k: int|
                    0 <= k < i ==> er_matches(
                        #[trigger] r@[k],
                        self.matchers@,
                        query_name@,
                        name_list@[k]@,
                    ),
            decreases n - i,
        {
            let one = self.get_ensemble_result(query_name, name_list[i]);
            r.push(one);
            i += 1;
        }
        r
    }
}

/// Batch scoring is equivalent run sequentially or in parallel: any two
/// result sequences that meet the batch contract — in particular the
/// outputs of `get_ensemble_result_arr` and `get_ensemble_result_arr_seq`
/// on the same inputs — agree entry by entry, in candidate order.
pub proof fn lemma_batch_agreement(
    a: Seq<EnsembleResult>,
    b: Seq<EnsembleResult>,
    ms: Seq<MatcherKind>,
    q: Seq<char>,
    ns: Seq<Seq<char>>,
)
    requires
        a.len() == ns.len(),
        b.len() == ns.len(),
        forall|i: int| 0 <= i < ns.len() ==> er_matches(#[trigger] a[i], ms, q, ns[i]),
        forall|i: int| 0 <= i < ns.len() ==> er_matches(#[trigger] b[i], ms, q, ns[i]),
    ensures
        forall|i: int|
            0 <= i < ns.len() ==> (#[trigger] a[i]).name1@ == b[i].name1@ && a[i].name2@
                == b[i].name2@ && a[i].score == b[i].score && a[i].results@.len()
                == b[i].results@.len(),
        forall|i: int, j: int|
            0 <= i < ns.len() && 0 <= j < ms.len() ==> (#[trigger] a[i].results@[j]).algorithm@
                == b[i].results@[j].algorithm@ && a[i].results@[j].weight
                == b[i].results@[j].weight && a[i].results@[j].absolute_score
                == b[i].results@[j].absolute_score && a[i].results@[j].weighted_score
                == b[i].results@[j].weighted_score,
{
    assert forall|i: int, j: int|
        0 <= i < ns.len() && 0 <= j < ms.len() implies (#[trigger] a[i].results@[j]).algorithm@
        == b[i].results@[j].algorithm@ && a[i].results@[j].weight == b[i].results@[j].weight
        && a[i].results@[j].absolute_score == b[i].results@[j].absolute_score
        && a[i].results@[j].weighted_score == b[i].results@[j].weighted_score by {
        assert(er_matches(a[i], ms, q, ns[i]));
        assert(er_matches(b[i], ms, q, ns[i]));
        assert(mr_matches(a[i].results@[j], ms[j], q, ns[i]));
        assert(mr_matches(b[i].results@[j], ms[j], q, ns[i]));
    }
}

proof fn lemma_equal_weight_aggregate(ms: Seq<MatcherKind>, s: Seq<char>, w: u64)
    requires
        forall|i: int| 0 <= i < ms.len() ==> (#[trigger] ms[i]).wf(),
        forall|i: int| 0 <= i < ms.len() ==> (#[trigger] ms[i]).weight_spec() == w,
        w <= SCORE_ONE,
        clean_spec(s).len() > 0,
    ensures
        aggregate_spec(ms, s, s) == ms.len() * (w as int),
    decreases ms.len(),
{
    if ms.len() == 0 {
        assert(0int * (w as int) == 0) by (nonlinear_arith);
    } else {
        let dl = ms.drop_last();
        assert(forall|i: int| 0 <= i < dl.len() ==> #[trigger] dl[i] == ms[i]);
        lemma_equal_weight_aggregate(dl, s, w);
        lemma_matcher_self_match(&ms.last(), s);
        assert(ms.last().score_spec(s, s) == SCORE_ONE as int);
        lemma_div_multiples_vanish(w as int, SCORE_ONE as int);
        assert(weighted(w as int, SCORE_ONE as int) == w as int);
        assert(ms.len() as int * (w as int) == dl.len() as int * (w as int) + w as int)
            by (nonlinear_arith)
            requires
                dl.len() == ms.len() - 1,
        {
        }
    }
}

/// After `set_equal_weight`, an ensemble of `N` matchers scores exactly
/// `N · (SCORE_ONE / N)` — that is, `SCORE_ONE` less the fixed-point
/// remainder `SCORE_ONE % N` — on two equal inputs that clean to
/// something nonempty. When `N` divides the scale evenly the aggregate
/// is exactly 1.0.
pub proof fn lemma_equal_weight_self_match(ms: Seq<MatcherKind>, s: Seq<char>)
    requires
        0 < ms.len() <= u64::MAX,
        forall|i: int| 0 <= i < ms.len() ==> (#[trigger] ms[i]).wf(),
        forall|i: int|
            0 <= i < ms.len() ==> (#[trigger] ms[i]).weight_spec() == SCORE_ONE / (
            ms.len() as u64),
        clean_spec(s).len() > 0,
    ensures
        aggregate_spec(ms, s, s) == SCORE_ONE as int - (SCORE_ONE as int) % (ms.len() as int),
{
    let n = ms.len() as int;
    let w = SCORE_ONE / (ms.len() as u64);
    lemma_div_nonincreasing(SCORE_ONE as int, n);
    lemma_div_pos_is_pos(SCORE_ONE as int, n);
    lemma_equal_weight_aggregate(ms, s, w);
    lemma_fundamental_div_mod(SCORE_ONE as int, n);
    assert(n * ((SCORE_ONE as int) / n) == SCORE_ONE as int - (SCORE_ONE as int) % n);
    assert(w as int == (SCORE_ONE as int) / n);
    assert(ms.len() * (w as int) == n * ((SCORE_ONE as int) / n));
}

} // verus!
