//! Shared foundations of the matcher library: the fixed-point score unit,
//! the text normalizer every matcher applies before scoring, and the
//! capability traits and result record that the concrete matchers share.
//!
//! Scores and weights are exact fixed-point numbers: the value `v` stands
//! for the real number `v / SCORE_ONE`, so a full match is `SCORE_ONE` and
//! a half weight is `SCORE_ONE / 2`. This keeps every contract exact.
use vstd::prelude::*;
use vstd::string::*;
use vstd::arithmetic::div_mod::{lemma_div_is_ordered, lemma_div_pos_is_pos,
    lemma_div_multiples_vanish};
use vstd::arithmetic::mul::{lemma_mul_inequality, lemma_mul_upper_bound};

verus! {

/// The fixed-point unit: a score or weight of `SCORE_ONE` means 1.0.
pub const SCORE_ONE: u64 = 1_000_000_000;

/// An ASCII letter, upper or lower case.
pub open spec fn is_letter(c: char) -> bool {
    (65 <= c as u32 && c as u32 <= 90) || (97 <= c as u32 && c as u32 <= 122)
}

/// The upper-case form of an ASCII letter; any other character is unchanged.
pub open spec fn to_upper_spec(c: char) -> char {
    match c {
        'a' => 'A',
        'b' => 'B',
        'c' => 'C',
        'd' => 'D',
        'e' => 'E',
        'f' => 'F',
        'g' => 'G',
        'h' => 'H',
        'i' => 'I',
        'j' => 'J',
        'k' => 'K',
        'l' => 'L',
        'm' => 'M',
        'n' => 'N',
        'o' => 'O',
        'p' => 'P',
        'q' => 'Q',
        'r' => 'R',
        's' => 'S',
        't' => 'T',
        'u' => 'U',
        'v' => 'V',
        'w' => 'W',
        'x' => 'X',
        'y' => 'Y',
        'z' => 'Z',
        _ => c,
    }
}

pub fn is_letter_exec(c: char) -> (r: bool)
    ensures
        r == is_letter(c),
{
    let u = c as u32;
    (65 <= u && u <= 90) || (97 <= u && u <= 122)
}

pub fn to_upper(c: char) -> (r: char)
    ensures
        r == to_upper_spec(c),
{
    match c {
        'a' => 'A',
        'b' => 'B',
        'c' => 'C',
        'd' => 'D',
        'e' => 'E',
        'f' => 'F',
        'g' => 'G',
        'h' => 'H',
        'i' => 'I',
        'j' => 'J',
        'k' => 'K',
        'l' => 'L',
        'm' => 'M',
        'n' => 'N',
        'o' => 'O',
        'p' => 'P',
        'q' => 'Q',
        'r' => 'R',
        's' => 'S',
        't' => 'T',
        'u' => 'U',
        'v' => 'V',
        'w' => 'W',
        'x' => 'X',
        'y' => 'Y',
        'z' => 'Z',
        _ => c,
    }
}

/// Every character of the input, letters upper-cased and everything
/// else replaced by a single blank.
pub open spec fn scrub(s: Seq<char>) -> Seq<char> {
    s.map_values(|c: char| if is_letter(c) { to_upper_spec(c) } else { ' ' })
}

pub open spec fn trim_front(s: Seq<char>) -> Seq<char>
    decreases s.len(),
{
    if s.len() > 0 && s[0] == ' ' {
        trim_front(s.drop_first())
    } else {
        s
    }
}

pub open spec fn trim_back(s: Seq<char>) -> Seq<char>
    decreases s.len(),
{
    if s.len() > 0 && s.last() == ' ' {
        trim_back(s.drop_last())
    } else {
        s
    }
}

/// The normalized form of a name: non-letters blanked, letters upper-cased,
/// leading and trailing blanks removed.
pub open spec fn clean_spec(s: Seq<char>) -> Seq<char> {
    trim_back(trim_front(scrub(s)))
}

proof fn lemma_trim_front_at(s: Seq<char>, k: int)
    requires
        0 <= k <= s.len(),
        forall|j: int| 0 <= j < k ==> s[j] == ' ',
        k == s.len() || s[k] != ' ',
    ensures
        trim_front(s) == s.subrange(k, s.len() as int),
    decreases k,
{
    if k == 0 {
        assert(trim_front(s) =~= s.subrange(0, s.len() as int)) by {
            if s.len() > 0 && s[0] == ' ' {
                assert(s[0] != ' ');
            }
            assert(s =~= s.subrange(0, s.len() as int));
        }
    } else {
        let t = s.drop_first();
        assert(forall|j: int| 0 <= j < k - 1 ==> t[j] == ' ');
        lemma_trim_front_at(t, k - 1);
        assert(t.subrange(k - 1, t.len() as int) =~= s.subrange(k, s.len() as int));
    }
}

proof fn lemma_trim_back_at(s: Seq<char>, k: int)
    requires
        0 <= k <= s.len(),
        forall|j: int| k <= j < s.len() ==> s[j] == ' ',
        k == 0 || s[k - 1] != ' ',
    ensures
        trim_back(s) == s.subrange(0, k),
    decreases s.len() - k,
{
    if k == s.len() {
        if s.len() > 0 && s.last() == ' ' {
            assert(s[k - 1] == ' ');
            assert(false);
        }
        assert(s =~= s.subrange(0, k));
    } else {
        let t = s.drop_last();
        assert(s.last() == ' ');
        lemma_trim_back_at(t, k);
        assert(t.subrange(0, k) =~= s.subrange(0, k));
    }
}

/// A cleaned string holds only upper-case letters and blanks, and neither
/// starts nor ends with a blank.
pub open spec fn is_clean_char(c: char) -> bool {
    c == ' ' || (65 <= c as u32 && c as u32 <= 90)
}

proof fn lemma_trim_front_props(s: Seq<char>)
    ensures
        trim_front(s).len() <= s.len(),
        forall|i: int|
            0 <= i < trim_front(s).len() ==> exists|j: int| 0 <= j < s.len() && s[j] == #[trigger] trim_front(s)[i],
        trim_front(s).len() > 0 ==> trim_front(s)[0] != ' ',
        trim_front(s).len() > 0 ==> trim_front(s).last() == s.last(),
    decreases s.len(),
{
    if s.len() > 0 && s[0] == ' ' {
        lemma_trim_front_props(s.drop_first());
        let t = s.drop_first();
        assert(forall|j: int| 0 <= j < t.len() ==> t[j] == s[j + 1]);
    }
}

proof fn lemma_trim_back_props(s: Seq<char>)
    ensures
        trim_back(s).len() <= s.len(),
        forall|i: int|
            0 <= i < trim_back(s).len() ==> #[trigger] trim_back(s)[i] == s[i],
        trim_back(s).len() > 0 ==> trim_back(s).last() != ' ',
    decreases s.len(),
{
    if s.len() > 0 && s.last() == ' ' {
        let t = s.drop_last();
        lemma_trim_back_props(t);
        assert(trim_back(s) == trim_back(t));
        assert(forall|j: int| 0 <= j < t.len() ==> #[trigger] t[j] == s[j]);
        assert(forall|i: int|
            0 <= i < trim_back(s).len() ==> #[trigger] trim_back(s)[i] == trim_back(t)[i]);
    }
}

/// What the normalizer guarantees of its output.
pub proof fn lemma_clean_props(s: Seq<char>)
    ensures
        forall|i: int| 0 <= i < clean_spec(s).len() ==> is_clean_char(#[trigger] clean_spec(s)[i]),
        clean_spec(s).len() > 0 ==> clean_spec(s)[0] != ' ',
        clean_spec(s).len() > 0 ==> clean_spec(s).last() != ' ',
{
    let sc = scrub(s);
    assert(forall|i: int| 0 <= i < sc.len() ==> is_clean_char(#[trigger] sc[i]));
    lemma_trim_front_props(sc);
    let tf = trim_front(sc);
    assert(forall|i: int| 0 <= i < tf.len() ==> is_clean_char(#[trigger] tf[i]));
    lemma_trim_back_props(tf);
    let tb = trim_back(tf);
    assert(forall|i: int| 0 <= i < tb.len() ==> is_clean_char(#[trigger] tb[i]));
    if tb.len() > 0 {
        assert(tb[0] == tf[0]);
        assert(tf[0] != ' ');
    }
}

/// Cleaning an already-clean string changes nothing: the normalizer is
/// idempotent.
pub proof fn lemma_clean_idempotent(s: Seq<char>)
    ensures
        clean_spec(clean_spec(s)) == clean_spec(s),
{
    lemma_clean_props(s);
    let c = clean_spec(s);
    assert(scrub(c) =~= c) by {
        assert(forall|i: int| 0 <= i < c.len() ==> is_clean_char(#[trigger] c[i]));
        assert(forall|i: int|
            0 <= i < c.len() ==> #[trigger] scrub(c)[i] == if is_letter(c[i]) {
                to_upper_spec(c[i])
            } else {
                ' '
            });
    }
    if c.len() == 0 {
        assert(clean_spec(c) =~= c);
    } else {
        lemma_trim_front_at(c, 0);
        assert(trim_front(c) =~= c);
        lemma_trim_back_at(c, c.len() as int);
        assert(trim_back(c) =~= c);
    }
}

/// Relies on `String::push`: appends the given character at the end.
#[verifier::external_body]
pub fn push_char(s: &mut String, c: char)
    ensures
        final(s)@ == old(s)@.push(c),
{
    s.push(c)
}

/// The normalizer: blank out non-letters, upper-case, trim.
pub fn clean_str(s: &str) -> (r: String)
    ensures
        r@ == clean_spec(s@),
{
    let n = s.unicode_len();
    let mut buf: Vec<char> = Vec::new();
    let mut i: usize = 0;
    while i < n
        invariant
            n == s@.len(),
            0 <= i <= n,
            buf@ =~= scrub(s@.subrange(0, i as int)),
        decreases n - i,
    {
        let c = s.get_char(i);
        if is_letter_exec(c) {
            buf.push(to_upper(c));
        } else {
            buf.push(' ');
        }
        proof {
            assert(buf@ =~= scrub(s@.subrange(0, i + 1 as int))) by {
                assert(s@.subrange(0, i + 1 as int) =~= s@.subrange(0, i as int).push(s@[i as int]));
                assert(scrub(s@.subrange(0, i as int).push(s@[i as int])) =~= scrub(
                    s@.subrange(0, i as int),
                ).push(scrub(s@)[i as int]));
            }
        }
        i += 1;
    }
    proof {
        assert(s@.subrange(0, n as int) =~= s@);
    }
    let len = buf.len();
    let mut lo: usize = 0;
    while lo < len && buf[lo] == ' '
        invariant
            len == buf@.len(),
            0 <= lo <= len,
            forall|j: int| 0 <= j < lo ==> buf@[j] == ' ',
        decreases len - lo,
    {
        lo += 1;
    }
    let mut hi: usize = len;
    while hi > lo && buf[hi - 1] == ' '
        invariant
            len == buf@.len(),
            0 <= lo <= hi <= len,
            forall|j: int| 0 <= j < lo ==> buf@[j] == ' ',
            forall|j: int| hi <= j < len ==> buf@[j] == ' ',
        decreases hi,
    {
        hi -= 1;
    }
    proof {
        lemma_trim_front_at(buf@, lo as int);
        let tf = buf@.subrange(lo as int, len as int);
        if hi == lo {
            assert(forall|j: int| 0 <= j < tf.len() ==> tf[j] == ' ');
            lemma_trim_back_at(tf, 0);
        } else {
            assert(tf[hi - lo - 1] == buf@[hi - 1]);
            assert(forall|j: int| hi - lo <= j < tf.len() ==> tf[j] == ' ');
            lemma_trim_back_at(tf, hi - lo);
        }
        assert(clean_spec(s@) =~= buf@.subrange(lo as int, hi as int)) by {
            assert(tf.subrange(0, hi - lo) =~= buf@.subrange(lo as int, hi as int));
        }
    }
    let mut out = String::new();
    let mut k: usize = lo;
    while k < hi
        invariant
            len == buf@.len(),
            0 <= lo <= k <= hi <= len,
            out@ =~= buf@.subrange(lo as int, k as int),
        decreases hi - k,
    {
        push_char(&mut out, buf[k]);
        proof {
            assert(buf@.subrange(lo as int, k + 1 as int) =~= buf@.subrange(lo as int, k as int).push(
                buf@[k as int],
            ));
        }
        k += 1;
    }
    out
}

/// Character-by-character string equality; equal views mean equal strings.
pub fn str_eq(a: &str, b: &str) -> (r: bool)
    ensures
        r == (a@ == b@),
{
    let na = a.unicode_len();
    let nb = b.unicode_len();
    if na != nb {
        assert(a@ != b@) by {
            if a@ == b@ {
                assert(a@.len() == b@.len());
            }
        }
        return false;
    }
    let mut i: usize = 0;
    while i < na
        invariant
            na == a@.len(),
            na == b@.len(),
            0 <= i <= na,
            forall|j: int| 0 <= j < i ==> a@[j] == b@[j],
        decreases na - i,
    {
        if a.get_char(i) != b.get_char(i) {
            assert(a@ != b@);
            return false;
        }
        i += 1;
    }
    proof {
        assert(a@ =~= b@);
    }
    true
}

/// The cleaned form is never longer than the input.
pub proof fn lemma_clean_len(s: Seq<char>)
    ensures
        clean_spec(s).len() <= s.len(),
{
    lemma_trim_front_props(scrub(s));
    lemma_trim_back_props(trim_front(scrub(s)));
}

/// The fixed-point product of a weight and a score: `w · s / SCORE_ONE`,
/// rounded down.
pub open spec fn weighted(w: int, s: int) -> int {
    w * s / (SCORE_ONE as int)
}

/// Multiplies a weight by a score in fixed point. The result never
/// exceeds the score itself when the weight stays within the unit scale.
pub fn weighted_exec(w: u64, s: u64) -> (r: u64)
    requires
        w <= SCORE_ONE,
        s <= SCORE_ONE,
    ensures
        r as int == weighted(w as int, s as int),
        r <= s,
{
    proof {
        lemma_mul_upper_bound(w as int, SCORE_ONE as int, s as int, SCORE_ONE as int);
        lemma_mul_inequality(w as int, SCORE_ONE as int, s as int);
        lemma_div_is_ordered(
            w as int * s as int,
            SCORE_ONE as int * s as int,
            SCORE_ONE as int,
        );
        lemma_div_multiples_vanish(s as int, SCORE_ONE as int);
        assert(SCORE_ONE as int * s as int / (SCORE_ONE as int) == s as int);
        lemma_div_pos_is_pos(w as int * s as int, SCORE_ONE as int);
    }
    (((w as u128) * (s as u128)) / (SCORE_ONE as u128)) as u64
}

/// One matcher's outcome for one comparison: the algorithm's name, the
/// matcher's weight, the raw score and the weighted score, all scores in
/// fixed point.
pub struct MatchResult {
    pub algorithm: String,
    pub weight: u64,
    pub absolute_score: u64,
    pub weighted_score: u64,
}

impl MatchResult {
    pub fn new(name: &str, weight: u64, score: u64) -> (r: MatchResult)
        requires
            weight <= SCORE_ONE,
            score <= SCORE_ONE,
        ensures
            r.algorithm@ == name@,
            r.weight == weight,
            r.absolute_score == score,
            r.weighted_score as int == weighted(weight as int, score as int),
            r.weighted_score <= score,
    {
        let ws = weighted_exec(weight, score);
        MatchResult { algorithm: name.to_owned(), weight, absolute_score: score, weighted_score: ws }
    }
}

/// String preprocessing shared by every matcher: scoring is always done
/// on the cleaned form of the inputs.
pub trait Clean {
    fn clean(&self, s1: &str) -> (r: String)
        ensures
            r@ == clean_spec(s1@),
    {
        clean_str(s1)
    }
}

/// Exposes the algorithm's display name.
pub trait Named {
    spec fn name_spec(&self) -> Seq<char>;

    fn get_name(&self) -> (r: &str)
        ensures
            r@ == self.name_spec(),
    ;
}

/// Exposes the matcher's weight. A well-formed matcher keeps its weight
/// within the unit scale, and `set_weight` demands the same of new values.
pub trait Weighted {
    spec fn wf(&self) -> bool;

    spec fn weight_spec(&self) -> u64;

    proof fn lemma_weight_in_range(&self)
        requires
            self.wf(),
        ensures
            self.weight_spec() <= SCORE_ONE,
    ;

    fn get_weight(&self) -> (r: u64)
        ensures
            r == self.weight_spec(),
    ;

    fn set_weight(&mut self, weight: u64)
        requires
            weight <= SCORE_ONE,
            old(self).wf(),
        ensures
            final(self).wf(),
            final(self).weight_spec() == weight,
    ;
}

/// The matcher capability set: clean, name, weight and score, with the
/// weighted score and the structured result derived uniformly.
pub trait Matcher: Clean + Named + Weighted {
    /// The algorithm's unweighted score on the cleaned inputs, in fixed
    /// point: `SCORE_ONE` is a full match.
    spec fn score_spec(&self, s1: Seq<char>, s2: Seq<char>) -> int;

    proof fn lemma_score_in_range(&self, s1: Seq<char>, s2: Seq<char>)
        requires
            self.wf(),
        ensures
            0 <= self.score_spec(s1, s2) <= SCORE_ONE,
    ;

    fn get_score(&self, s1: &str, s2: &str) -> (r: u64)
        requires
            self.wf(),
            s1@.len() <= i32::MAX as int,
            s2@.len() <= i32::MAX as int,
        ensures
            r as int == self.score_spec(s1@, s2@),
    ;

    fn get_weighted_score(&self, s1: &str, s2: &str) -> (r: u64)
        requires
            self.wf(),
            s1@.len() <= i32::MAX as int,
            s2@.len() <= i32::MAX as int,
        ensures
            r as int == weighted(self.weight_spec() as int, self.score_spec(s1@, s2@)),
            r <= SCORE_ONE,
    {
        let weight = self.get_weight();
        let score = self.get_score(s1, s2);
        proof {
            self.lemma_weight_in_range();
            self.lemma_score_in_range(s1@, s2@);
        }
        weighted_exec(weight, score)
    }

    fn get_match_result(&self, s1: &str, s2: &str) -> (r: MatchResult)
        requires
            self.wf(),
            s1@.len() <= i32::MAX as int,
            s2@.len() <= i32::MAX as int,
        ensures
            r.algorithm@ == self.name_spec(),
            r.weight == self.weight_spec(),
            r.absolute_score as int == self.score_spec(s1@, s2@),
            r.weighted_score as int == weighted(self.weight_spec() as int, self.score_spec(s1@, s2@)),
    {
        let score = self.get_score(s1, s2);
        proof {
            self.lemma_weight_in_range();
            self.lemma_score_in_range(s1@, s2@);
        }
        MatchResult::new(self.get_name(), self.get_weight(), score)
    }
}

} // verus!
