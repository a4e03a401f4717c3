//! The Jaro matching engine: greedy window matching, transposition
//! counting, and the Jaro and Jaro-Winkler scores in fixed point
//! (`SCORE_ONE` stands for 1.0).
//!
//! The matching is deliberately greedy — each character of the first
//! string claims the first still-free window position of the second —
//! and the specification pins that exact tie-break down.
use crate::jaro::config::JaroWinklerConfigOptions;
use crate::prelude::{SCORE_ONE, str_eq};
use vstd::prelude::*;
use vstd::string::*;
use vstd::arithmetic::div_mod::{lemma_div_is_ordered, lemma_div_pos_is_pos,
    lemma_div_multiples_vanish};
use vstd::arithmetic::mul::{lemma_mul_inequality, lemma_mul_upper_bound};

verus! {

/// First position of `s2` that row `i`'s matching window reaches.
pub open spec fn win_start(i: int, d: int) -> int {
    if i - d > 0 {
        i - d
    } else {
        0
    }
}

/// One past the last position of `s2` that row `i`'s window reaches.
pub open spec fn win_end(i: int, d: int, len2: int) -> int {
    if i + d + 1 < len2 {
        i + d + 1
    } else {
        len2
    }
}

/// The smallest `j` in `[start, end)` with `s2[j] == c` still unclaimed
/// (`h2[j] == 0`), or -1 when the window holds none.
pub open spec fn find_first(s2: Seq<char>, h2: Seq<i32>, c: char, start: int, end: int) -> int
    decreases end - start,
{
    if start >= end {
        -1
    } else if s2[start] == c && h2[start] == 0 {
        start
    } else {
        find_first(s2, h2, c, start + 1, end)
    }
}

/// The window position that row `i` of `s1` claims, given claims `h2`.
pub open spec fn row_match(s1: Seq<char>, s2: Seq<char>, h2: Seq<i32>, d: int, i: int) -> int {
    find_first(s2, h2, s1[i], win_start(i, d), win_end(i, d, s2.len() as int))
}

/// Both hash vectors after greedily processing rows `0..i` of `s1`.
pub open spec fn greedy(
    s1: Seq<char>,
    s2: Seq<char>,
    d: int,
    h1: Seq<i32>,
    h2: Seq<i32>,
    i: int,
) -> (Seq<i32>, Seq<i32>)
    decreases i,
{
    if i <= 0 {
        (h1, h2)
    } else {
        let prev = greedy(s1, s2, d, h1, h2, i - 1);
        let j = row_match(s1, s2, prev.1, d, i - 1);
        if j >= 0 {
            (prev.0.update(i - 1, 1), prev.1.update(j, 1))
        } else {
            prev
        }
    }
}

/// How many of rows `0..i` claimed a match.
pub open spec fn match_count(
    s1: Seq<char>,
    s2: Seq<char>,
    d: int,
    h1: Seq<i32>,
    h2: Seq<i32>,
    i: int,
) -> int
    decreases i,
{
    if i <= 0 {
        0
    } else {
        let prev = greedy(s1, s2, d, h1, h2, i - 1);
        match_count(s1, s2, d, h1, h2, i - 1) + if row_match(s1, s2, prev.1, d, i - 1) >= 0 {
            1int
        } else {
            0int
        }
    }
}

/// Indices of `s1` marked as matched (entry exactly 1), in order.
pub open spec fn rows_matched(h: Seq<i32>) -> Seq<int>
    decreases h.len(),
{
    if h.len() == 0 {
        Seq::empty()
    } else {
        rows_matched(h.drop_last()) + if h.last() == 1 {
            seq![h.len() - 1]
        } else {
            Seq::<int>::empty()
        }
    }
}

/// Indices of `s2` marked as matched (entry nonzero), in order.
pub open spec fn cols_matched(h: Seq<i32>) -> Seq<int>
    decreases h.len(),
{
    if h.len() == 0 {
        Seq::empty()
    } else {
        cols_matched(h.drop_last()) + if h.last() != 0 {
            seq![h.len() - 1]
        } else {
            Seq::<int>::empty()
        }
    }
}

/// Among the first `k` matched pairs, how many pair different characters.
pub open spec fn diff_count(s1: Seq<char>, s2: Seq<char>, a: Seq<int>, b: Seq<int>, k: int) -> int
    decreases k,
{
    if k <= 0 {
        0
    } else {
        diff_count(s1, s2, a, b, k - 1) + if s1[a[k - 1]] != s2[b[k - 1]] {
            1int
        } else {
            0int
        }
    }
}

/// An all-zero hash vector of the given length.
pub open spec fn zeros(n: int) -> Seq<i32> {
    Seq::new(n as nat, |i: int| 0i32)
}

/// The number of leading positions where the two strings agree.
pub open spec fn common_prefix_spec(s1: Seq<char>, s2: Seq<char>) -> int
    decreases s1.len(),
{
    if s1.len() > 0 && s2.len() > 0 && s1[0] == s2[0] {
        1 + common_prefix_spec(s1.drop_first(), s2.drop_first())
    } else {
        0
    }
}

/// The Jaro score in fixed point. Empty inputs score 0; equal inputs
/// score `SCORE_ONE`; otherwise the greedy window matching determines
/// matches `m` and mismatched pairs `diff` (twice the transposition
/// count), and the score is the rounded-down fixed-point value of
/// `(m/len1 + m/len2 + (m - diff/2)/m) / 3`.
pub open spec fn jaro_fp(s1: Seq<char>, s2: Seq<char>) -> int {
    let l1 = s1.len() as int;
    let l2 = s2.len() as int;
    if l1 == 0 || l2 == 0 {
        0
    } else if s1 == s2 {
        SCORE_ONE as int
    } else {
        let d = (if l1 >= l2 {
            l1
        } else {
            l2
        }) / 2 - 1;
        let m = match_count(s1, s2, d, zeros(l1), zeros(l2), l1);
        if m == 0 {
            0
        } else {
            let gr = greedy(s1, s2, d, zeros(l1), zeros(l2), l1);
            let a = rows_matched(gr.0);
            let diff = diff_count(s1, s2, a, cols_matched(gr.1), a.len() as int);
            SCORE_ONE as int * (2 * m * m * l2 + 2 * m * m * l1 + (2 * m - diff) * l1 * l2) / (6
                * l1 * l2 * m)
        }
    }
}

/// The Jaro-Winkler score in fixed point: the Jaro score, plus — only
/// when it exceeds the configured threshold — a bonus of
/// `scaling_factor · prefix · (1 - score)` for the common prefix, capped
/// at `max_prefix_length` characters.
pub open spec fn jaro_winkler_fp(s1: Seq<char>, s2: Seq<char>, cfg: JaroWinklerConfigOptions) -> int {
    let jd = jaro_fp(s1, s2);
    if jd > cfg.similarity_threshold as int {
        let cp = common_prefix_spec(s1, s2);
        let p = if cfg.max_prefix_length as int <= cp {
            cfg.max_prefix_length as int
        } else {
            cp
        };
        jd + cfg.scaling_factor as int * p * (SCORE_ONE as int - jd) / (SCORE_ONE as int)
    } else {
        jd
    }
}

// ---------------------------------------------------------------------
// Properties of the matching model
// ---------------------------------------------------------------------

proof fn lemma_find_first_props(s2: Seq<char>, h2: Seq<i32>, c: char, start: int, end: int)
    requires
        0 <= start,
        end <= s2.len(),
    ensures
        ({
            let r = find_first(s2, h2, c, start, end);
            r == -1 || (start <= r < end && s2[r] == c && h2[r] == 0)
        }),
    decreases end - start,
{
    if start >= end {
    } else if s2[start] == c && h2[start] == 0 {
    } else {
        lemma_find_first_props(s2, h2, c, start + 1, end);
    }
}

proof fn lemma_rows_matched_props(h: Seq<i32>)
    ensures
        rows_matched(h).len() <= h.len(),
        forall|t: int|
            0 <= t < rows_matched(h).len() ==> 0 <= #[trigger] rows_matched(h)[t] < h.len()
                && h[rows_matched(h)[t]] == 1,
    decreases h.len(),
{
    if h.len() > 0 {
        lemma_rows_matched_props(h.drop_last());
        assert(forall|t: int|
            0 <= t < h.drop_last().len() ==> #[trigger] h.drop_last()[t] == h[t]);
    }
}

proof fn lemma_cols_matched_props(h: Seq<i32>)
    ensures
        cols_matched(h).len() <= h.len(),
        forall|t: int|
            0 <= t < cols_matched(h).len() ==> 0 <= #[trigger] cols_matched(h)[t] < h.len()
                && h[cols_matched(h)[t]] != 0,
    decreases h.len(),
{
    if h.len() > 0 {
        lemma_cols_matched_props(h.drop_last());
        assert(forall|t: int|
            0 <= t < h.drop_last().len() ==> #[trigger] h.drop_last()[t] == h[t]);
    }
}

proof fn lemma_rows_matched_update(h: Seq<i32>, p: int)
    requires
        0 <= p < h.len(),
        h[p] != 1,
    ensures
        rows_matched(h.update(p, 1)).len() == rows_matched(h).len() + 1,
    decreases h.len(),
{
    let hu = h.update(p, 1);
    if p == h.len() - 1 {
        assert(hu.drop_last() =~= h.drop_last());
        assert(hu.last() == 1);
    } else {
        assert(hu.drop_last() =~= h.drop_last().update(p, 1));
        assert(hu.last() == h.last());
        lemma_rows_matched_update(h.drop_last(), p);
    }
}

proof fn lemma_cols_matched_update(h: Seq<i32>, p: int)
    requires
        0 <= p < h.len(),
        h[p] == 0,
    ensures
        cols_matched(h.update(p, 1)).len() == cols_matched(h).len() + 1,
    decreases h.len(),
{
    let hu = h.update(p, 1);
    if p == h.len() - 1 {
        assert(hu.drop_last() =~= h.drop_last());
        assert(hu.last() == 1);
    } else {
        assert(hu.drop_last() =~= h.drop_last().update(p, 1));
        assert(hu.last() == h.last());
        lemma_cols_matched_update(h.drop_last(), p);
    }
}

/// Rows processed in order from an all-zero start keep the counters in
/// step: the matched rows, the claimed columns and the match count agree,
/// and rows not yet processed stay unmarked.
proof fn lemma_greedy_invariants(s1: Seq<char>, s2: Seq<char>, d: int, i: int)
    requires
        0 <= i <= s1.len(),
    ensures
        ({
            let gr = greedy(s1, s2, d, zeros(s1.len() as int), zeros(s2.len() as int), i);
            let m = match_count(s1, s2, d, zeros(s1.len() as int), zeros(s2.len() as int), i);
            &&& gr.0.len() == s1.len()
            &&& gr.1.len() == s2.len()
            &&& rows_matched(gr.0).len() == m
            &&& cols_matched(gr.1).len() == m
            &&& 0 <= m <= i
            &&& forall|t: int| i <= t < s1.len() ==> gr.0[t] == 0
        }),
    decreases i,
{
    let l1 = s1.len() as int;
    let l2 = s2.len() as int;
    let h10 = zeros(l1);
    let h20 = zeros(l2);
    if i == 0 {
        assert(rows_matched(h10).len() == 0) by {
            lemma_rows_matched_all_zero(h10);
        }
        assert(cols_matched(h20).len() == 0) by {
            lemma_cols_matched_all_zero(h20);
        }
    } else {
        lemma_greedy_invariants(s1, s2, d, i - 1);
        let prev = greedy(s1, s2, d, h10, h20, i - 1);
        let j = row_match(s1, s2, prev.1, d, i - 1);
        lemma_find_first_props(
            s2,
            prev.1,
            s1[i - 1],
            win_start(i - 1, d),
            win_end(i - 1, d, l2),
        );
        if j >= 0 {
            assert(prev.0[i - 1] == 0);
            lemma_rows_matched_update(prev.0, i - 1);
            lemma_cols_matched_update(prev.1, j);
        }
    }
}

proof fn lemma_rows_matched_all_zero(h: Seq<i32>)
    requires
        forall|t: int| 0 <= t < h.len() ==> h[t] == 0,
    ensures
        rows_matched(h).len() == 0,
    decreases h.len(),
{
    if h.len() > 0 {
        assert(forall|t: int|
            0 <= t < h.drop_last().len() ==> #[trigger] h.drop_last()[t] == h[t]);
        lemma_rows_matched_all_zero(h.drop_last());
    }
}

proof fn lemma_cols_matched_all_zero(h: Seq<i32>)
    requires
        forall|t: int| 0 <= t < h.len() ==> h[t] == 0,
    ensures
        cols_matched(h).len() == 0,
    decreases h.len(),
{
    if h.len() > 0 {
        assert(forall|t: int|
            0 <= t < h.drop_last().len() ==> #[trigger] h.drop_last()[t] == h[t]);
        lemma_cols_matched_all_zero(h.drop_last());
    }
}

proof fn lemma_diff_count_bound(s1: Seq<char>, s2: Seq<char>, a: Seq<int>, b: Seq<int>, k: int)
    ensures
        0 <= diff_count(s1, s2, a, b, k),
        diff_count(s1, s2, a, b, k) <= (if k >= 0 {
            k
        } else {
            0
        }),
    decreases k,
{
    if k > 0 {
        lemma_diff_count_bound(s1, s2, a, b, k - 1);
    }
}

/// The Jaro score stays within the unit scale.
pub proof fn lemma_jaro_fp_range(s1: Seq<char>, s2: Seq<char>)
    ensures
        0 <= jaro_fp(s1, s2) <= SCORE_ONE,
{
    let l1 = s1.len() as int;
    let l2 = s2.len() as int;
    if l1 == 0 || l2 == 0 {
    } else if s1 == s2 {
    } else {
        let d = (if l1 >= l2 {
            l1
        } else {
            l2
        }) / 2 - 1;
        let m = match_count(s1, s2, d, zeros(l1), zeros(l2), l1);
        if m != 0 {
            let gr = greedy(s1, s2, d, zeros(l1), zeros(l2), l1);
            let a = rows_matched(gr.0);
            let b = cols_matched(gr.1);
            let diff = diff_count(s1, s2, a, b, a.len() as int);
            lemma_greedy_invariants(s1, s2, d, l1);
            lemma_cols_matched_props(gr.1);
            assert(m <= l1);
            assert(m <= l2);
            lemma_diff_count_bound(s1, s2, a, b, a.len() as int);
            assert(0 <= diff <= m);
            let core = 2 * m * m * l2 + 2 * m * m * l1 + (2 * m - diff) * l1 * l2;
            let den = 6 * l1 * l2 * m;
            assert(0 < core <= den) by (nonlinear_arith)
                requires
                    1 <= m,
                    m <= l1,
                    m <= l2,
                    0 <= diff <= m,
                    core == 2 * m * m * l2 + 2 * m * m * l1 + (2 * m - diff) * l1 * l2,
                    den == 6 * l1 * l2 * m,
            {
            }
            lemma_div_pos_is_pos(SCORE_ONE as int * core, den);
            lemma_div_is_ordered(SCORE_ONE as int * core, SCORE_ONE as int * den, den);
            lemma_div_multiples_vanish(SCORE_ONE as int, den);
        }
    }
}

proof fn lemma_common_prefix_nonneg(s1: Seq<char>, s2: Seq<char>)
    ensures
        common_prefix_spec(s1, s2) >= 0,
    decreases s1.len(),
{
    if s1.len() > 0 && s2.len() > 0 && s1[0] == s2[0] {
        lemma_common_prefix_nonneg(s1.drop_first(), s2.drop_first());
    }
}

/// With a well-formed configuration the Jaro-Winkler score stays within
/// the unit scale: the prefix bonus never pushes it past 1.0.
pub proof fn lemma_jaro_winkler_fp_range(s1: Seq<char>, s2: Seq<char>, cfg: JaroWinklerConfigOptions)
    requires
        cfg.wf(),
    ensures
        0 <= jaro_winkler_fp(s1, s2, cfg) <= SCORE_ONE,
{
    lemma_jaro_fp_range(s1, s2);
    let jd = jaro_fp(s1, s2);
    if jd > cfg.similarity_threshold as int {
        lemma_common_prefix_nonneg(s1, s2);
        let cp = common_prefix_spec(s1, s2);
        let p = if cfg.max_prefix_length as int <= cp {
            cfg.max_prefix_length as int
        } else {
            cp
        };
        let sfi = cfg.scaling_factor as int;
        let rest = SCORE_ONE as int - jd;
        assert(0 <= sfi * p * rest && sfi * p <= SCORE_ONE as int) by (nonlinear_arith)
            requires
                0 <= sfi,
                0 <= p <= cfg.max_prefix_length as int,
                sfi * cfg.max_prefix_length as int <= SCORE_ONE as int,
                0 <= rest,
        {
        }
        assert(sfi * p * rest <= SCORE_ONE as int * rest) by {
            lemma_mul_inequality(sfi * p, SCORE_ONE as int, rest);
        }
        lemma_div_is_ordered(sfi * p * rest, SCORE_ONE as int * rest, SCORE_ONE as int);
        lemma_div_multiples_vanish(rest, SCORE_ONE as int);
        assert(SCORE_ONE as int * rest / (SCORE_ONE as int) == rest);
        lemma_div_pos_is_pos(sfi * p * rest, SCORE_ONE as int);
    }
}

/// The common prefix length reads the two strings the same way around.
pub proof fn lemma_common_prefix_symmetric(s1: Seq<char>, s2: Seq<char>)
    ensures
        common_prefix_spec(s1, s2) == common_prefix_spec(s2, s1),
    decreases s1.len(),
{
    if s1.len() > 0 && s2.len() > 0 && s1[0] == s2[0] {
        lemma_common_prefix_symmetric(s1.drop_first(), s2.drop_first());
    }
}

/// The Winkler extension preserves symmetry: whenever the underlying
/// Jaro score of a pair is the same either way around, so is the
/// Jaro-Winkler score, since the prefix bonus reads both strings alike.
pub proof fn lemma_jaro_winkler_fp_symmetric_from_jaro(
    s1: Seq<char>,
    s2: Seq<char>,
    cfg: JaroWinklerConfigOptions,
)
    requires
        jaro_fp(s1, s2) == jaro_fp(s2, s1),
    ensures
        jaro_winkler_fp(s1, s2, cfg) == jaro_winkler_fp(s2, s1, cfg),
{
    lemma_common_prefix_symmetric(s1, s2);
}

/// A string fully matches itself: the Jaro score of `(s, s)` is 1.0 for
/// any nonempty string.
pub proof fn lemma_jaro_fp_reflexive(s: Seq<char>)
    requires
        s.len() > 0,
    ensures
        jaro_fp(s, s) == SCORE_ONE,
{
}

/// So does the Jaro-Winkler score, for any well-formed configuration.
pub proof fn lemma_jaro_winkler_fp_reflexive(s: Seq<char>, cfg: JaroWinklerConfigOptions)
    requires
        s.len() > 0,
        cfg.wf(),
    ensures
        jaro_winkler_fp(s, s, cfg) == SCORE_ONE,
{
    lemma_jaro_fp_reflexive(s);
    if SCORE_ONE as int > cfg.similarity_threshold as int {
        let cp = common_prefix_spec(s, s);
        let p = if cfg.max_prefix_length as int <= cp {
            cfg.max_prefix_length as int
        } else {
            cp
        };
        assert(cfg.scaling_factor as int * p * (SCORE_ONE as int - SCORE_ONE as int) == 0)
            by (nonlinear_arith);
        assert(0int / (SCORE_ONE as int) == 0) by {
            lemma_div_pos_is_pos(0, SCORE_ONE as int);
            lemma_div_is_ordered(0, 0, SCORE_ONE as int);
            assert(0int / (SCORE_ONE as int) <= 0) by {
                lemma_div_multiples_vanish(0, SCORE_ONE as int);
            }
        }
    }
}

// ---------------------------------------------------------------------
// Executable engine
// ---------------------------------------------------------------------

/// The window half-width: half the longer length, less one. Lengths of
/// one or two give a negative width, which legitimately admits no match.
pub fn max_distance_allowed(len1: i32, len2: i32) -> (r: i32)
    requires
        len1 >= 0,
        len2 >= 0,
    ensures
        r == (if len1 >= len2 {
            len1 as int
        } else {
            len2 as int
        }) / 2 - 1,
{
    let max = if len1 >= len2 {
        len1
    } else {
        len2
    };
    (max / 2) - 1
}

proof fn lemma_common_prefix_at(s1: Seq<char>, s2: Seq<char>, i: int)
    requires
        0 <= i <= s1.len(),
        i <= s2.len(),
        forall|k: int| 0 <= k < i ==> s1[k] == s2[k],
        i == s1.len() || i == s2.len() || s1[i] != s2[i],
    ensures
        common_prefix_spec(s1, s2) == i,
    decreases i,
{
    if i == 0 {
    } else {
        let t1 = s1.drop_first();
        let t2 = s2.drop_first();
        assert(forall|k: int| 0 <= k < i - 1 ==> #[trigger] t1[k] == t2[k]);
        lemma_common_prefix_at(t1, t2, i - 1);
    }
}

/// How many leading characters the two strings share.
pub fn common_prefix_length(s1: &str, s2: &str) -> (r: i32)
    requires
        s1@.len() <= i32::MAX as int,
        s2@.len() <= i32::MAX as int,
    ensures
        r == common_prefix_spec(s1@, s2@),
        r >= 0,
{
    let n1 = s1.unicode_len();
    let n2 = s2.unicode_len();
    let min_length = if n1 <= n2 {
        n1
    } else {
        n2
    };
    let mut prefix: usize = 0;
    let mut mismatch = false;
    while prefix < min_length && !mismatch
        invariant
            n1 == s1@.len(),
            n2 == s2@.len(),
            min_length == (if n1 <= n2 {
                n1 as int
            } else {
                n2 as int
            }),
            0 <= prefix <= min_length,
            forall|k: int| 0 <= k < prefix ==> s1@[k] == s2@[k],
            mismatch ==> prefix < min_length && s1@[prefix as int] != s2@[prefix as int],
        decreases min_length - prefix + (if mismatch {
            0int
        } else {
            1int
        }),
    {
        if s1.get_char(prefix) != s2.get_char(prefix) {
            mismatch = true;
        } else {
            prefix += 1;
        }
    }
    proof {
        lemma_common_prefix_at(s1@, s2@, prefix as int);
    }
    prefix as i32
}

/// The greedy window matching: marks each claimed row of `s1` in
/// `hash_1`, each claimed position of `s2` in `hash_2`, and returns how
/// many rows found a match. Already-marked positions of `hash_2` are
/// never claimed again.
pub fn matches(
    s1: &str,
    s2: &str,
    hash_1: &mut Vec<i32>,
    hash_2: &mut Vec<i32>,
    max_matching_dist: i32,
) -> (m: i32)
    requires
        old(hash_1)@.len() == s1@.len(),
        old(hash_2)@.len() == s2@.len(),
        s1@.len() <= i32::MAX as int,
        s2@.len() <= i32::MAX as int,
    ensures
        ({
            let gr = greedy(
                s1@,
                s2@,
                max_matching_dist as int,
                old(hash_1)@,
                old(hash_2)@,
                s1@.len() as int,
            );
            final(hash_1)@ == gr.0 && final(hash_2)@ == gr.1
        }),
        m as int == match_count(
            s1@,
            s2@,
            max_matching_dist as int,
            old(hash_1)@,
            old(hash_2)@,
            s1@.len() as int,
        ),
        0 <= m <= s1@.len(),
{
    let len1 = s1.unicode_len();
    let len2 = s2.unicode_len();
    let d: i64 = max_matching_dist as i64;
    let ghost h10 = hash_1@;
    let ghost h20 = hash_2@;
    let mut m: i32 = 0;
    let mut i: usize = 0;
    while i < len1
        invariant
            len1 == s1@.len(),
            len2 == s2@.len(),
            len1 <= i32::MAX as int,
            len2 <= i32::MAX as int,
            d == max_matching_dist as int,
            0 <= i <= len1,
            hash_1@.len() == len1,
            hash_2@.len() == len2,
            greedy(s1@, s2@, d as int, h10, h20, i as int).0 == hash_1@,
            greedy(s1@, s2@, d as int, h10, h20, i as int).1 == hash_2@,
            m as int == match_count(s1@, s2@, d as int, h10, h20, i as int),
            0 <= m <= i,
        decreases len1 - i,
    {
        let ci = s1.get_char(i);
        let start_i64: i64 = if (i as i64) - d > 0 {
            (i as i64) - d
        } else {
            0
        };
        let end_i64: i64 = if (i as i64) + d + 1 < (len2 as i64) {
            (i as i64) + d + 1
        } else {
            len2 as i64
        };
        proof {
            assert(start_i64 as int == win_start(i as int, d as int));
            assert(end_i64 as int == win_end(i as int, d as int, len2 as int));
        }
        let mut j: i64 = start_i64;
        let mut found = false;
        let mut jm: usize = 0;
        while j < end_i64 && !found
            invariant
                len2 == s2@.len(),
                hash_2@.len() == len2,
                0 <= start_i64 <= j,
                end_i64 <= len2 as int,
                ci == s1@[i as int],
                i < len1 == s1@.len(),
                !found ==> find_first(s2@, hash_2@, ci, start_i64 as int, end_i64 as int)
                    == find_first(s2@, hash_2@, ci, j as int, end_i64 as int),
                found ==> start_i64 <= jm && (jm as int) < end_i64 && s2@[jm as int] == ci
                    && hash_2@[jm as int] == 0 && find_first(
                    s2@,
                    hash_2@,
                    ci,
                    start_i64 as int,
                    end_i64 as int,
                ) == jm as int,
            decreases end_i64 - j + (if found {
                0int
            } else {
                1int
            }),
        {
            let jj = j as usize;
            let cj = s2.get_char(jj);
            if ci == cj && hash_2[jj] == 0 {
                found = true;
                jm = jj;
            } else {
                j += 1;
            }
        }
        let ghost prev1 = hash_1@;
        let ghost prev2 = hash_2@;
        proof {
            if !found {
                assert(find_first(s2@, hash_2@, ci, j as int, end_i64 as int) == -1);
                assert(row_match(s1@, s2@, prev2, d as int, i as int) == -1);
            } else {
                assert(row_match(s1@, s2@, prev2, d as int, i as int) == jm as int);
            }
        }
        if found {
            hash_1[i] = 1;
            hash_2[jm] = 1;
            m += 1;
        }
        proof {
            let gr_next = greedy(s1@, s2@, d as int, h10, h20, i + 1 as int);
            assert(gr_next.0 == hash_1@ && gr_next.1 == hash_2@);
            assert(m as int == match_count(s1@, s2@, d as int, h10, h20, i + 1 as int));
        }
        i += 1;
    }
    m
}

/// Walks the matched rows of `s1` and the claimed positions of `s2` in
/// order and counts the pairs whose characters differ. The count of rows
/// marked 1 must not exceed the count of nonzero positions, or the walk
/// would run off the end.
fn diff_pairs(s1: &str, s2: &str, hash_1: &Vec<i32>, hash_2: &Vec<i32>) -> (r: u64)
    requires
        hash_1@.len() == s1@.len(),
        hash_2@.len() == s2@.len(),
        rows_matched(hash_1@).len() <= cols_matched(hash_2@).len(),
    ensures
        r as int == diff_count(
            s1@,
            s2@,
            rows_matched(hash_1@),
            cols_matched(hash_2@),
            rows_matched(hash_1@).len() as int,
        ),
        r <= rows_matched(hash_1@).len(),
{
    let len1 = s1.unicode_len();
    let len2 = s2.unicode_len();
    let ghost a = rows_matched(hash_1@);
    let ghost b = cols_matched(hash_2@);
    let mut ptr_j: usize = 0;
    let mut k: usize = 0;
    let mut diffs: u64 = 0;
    let mut ptr_i: usize = 0;
    while ptr_i < len1
        invariant
            len1 == s1@.len(),
            len2 == s2@.len(),
            hash_1@.len() == len1,
            hash_2@.len() == len2,
            a == rows_matched(hash_1@),
            b == cols_matched(hash_2@),
            a.len() <= b.len(),
            0 <= ptr_i <= len1,
            0 <= ptr_j <= len2,
            k <= ptr_j,
            k as int == rows_matched(hash_1@.take(ptr_i as int)).len(),
            k as int == cols_matched(hash_2@.take(ptr_j as int)).len(),
            diffs <= k,
            diffs as int == diff_count(s1@, s2@, a, b, k as int),
        decreases len1 - ptr_i,
    {
        let ghost tk1 = hash_1@.take(ptr_i + 1 as int);
        proof {
            assert(tk1.drop_last() =~= hash_1@.take(ptr_i as int));
            assert(tk1.last() == hash_1@[ptr_i as int]);
        }
        if hash_1[ptr_i] == 1 {
            proof {
                assert(rows_matched(tk1) == rows_matched(hash_1@.take(ptr_i as int)) + seq![
                    ptr_i as int,
                ]);
                lemma_take_prefix_rows(hash_1@, ptr_i + 1 as int);
                assert(rows_matched(tk1)[k as int] == ptr_i as int);
                assert(k < a.len());
                assert(a[k as int] == ptr_i as int);
            }
            let ghost k0 = k as int;
            while ptr_j < len2 && hash_2[ptr_j] == 0
                invariant
                    len2 == s2@.len(),
                    hash_2@.len() == len2,
                    b == cols_matched(hash_2@),
                    k0 < a.len() <= b.len(),
                    0 <= ptr_j <= len2,
                    k0 <= ptr_j,
                    k0 == cols_matched(hash_2@.take(ptr_j as int)).len(),
                decreases len2 - ptr_j,
            {
                proof {
                    let tk2 = hash_2@.take(ptr_j + 1 as int);
                    assert(tk2.drop_last() =~= hash_2@.take(ptr_j as int));
                    assert(tk2.last() == hash_2@[ptr_j as int]);
                    assert(cols_matched(tk2) == cols_matched(hash_2@.take(ptr_j as int))
                        + Seq::<int>::empty());
                    assert(cols_matched(tk2) =~= cols_matched(hash_2@.take(ptr_j as int)));
                }
                ptr_j += 1;
            }
            proof {
                if ptr_j == len2 {
                    assert(hash_2@.take(len2 as int) =~= hash_2@);
                    assert(k0 == b.len());
                    assert(false);
                }
                assert(hash_2@[ptr_j as int] != 0);
                let tk2 = hash_2@.take(ptr_j + 1 as int);
                assert(tk2.drop_last() =~= hash_2@.take(ptr_j as int));
                assert(tk2.last() == hash_2@[ptr_j as int]);
                assert(cols_matched(tk2) == cols_matched(hash_2@.take(ptr_j as int)) + seq![
                    ptr_j as int,
                ]);
                lemma_take_prefix_cols(hash_2@, ptr_j + 1 as int);
                assert(cols_matched(tk2)[k0] == ptr_j as int);
                assert(b[k0] == ptr_j as int);
            }
            if s1.get_char(ptr_i) != s2.get_char(ptr_j) {
                diffs += 1;
            }
            ptr_j += 1;
            k += 1;
        } else {
            proof {
                assert(rows_matched(tk1) == rows_matched(hash_1@.take(ptr_i as int))
                    + Seq::<int>::empty());
                assert(rows_matched(tk1) =~= rows_matched(hash_1@.take(ptr_i as int)));
            }
        }
        ptr_i += 1;
    }
    proof {
        assert(hash_1@.take(len1 as int) =~= hash_1@);
    }
    diffs
}

proof fn lemma_take_prefix_rows(h: Seq<i32>, p: int)
    requires
        0 <= p <= h.len(),
    ensures
        rows_matched(h.take(p)).len() <= rows_matched(h).len(),
        forall|t: int|
            0 <= t < rows_matched(h.take(p)).len() ==> #[trigger] rows_matched(h.take(p))[t]
                == rows_matched(h)[t],
    decreases h.len() - p,
{
    if p == h.len() {
        assert(h.take(p) =~= h);
    } else {
        lemma_take_prefix_rows(h, p + 1);
        assert(h.take(p + 1).drop_last() =~= h.take(p));
        assert(h.take(p + 1).last() == h[p]);
        let delta = if h[p] == 1 {
            seq![p]
        } else {
            Seq::<int>::empty()
        };
        assert(rows_matched(h.take(p + 1)) == rows_matched(h.take(p)) + delta);
        assert forall|t: int| 0 <= t < rows_matched(h.take(p)).len() implies #[trigger] rows_matched(
            h.take(p),
        )[t] == rows_matched(h)[t] by {
            assert(rows_matched(h.take(p))[t] == (rows_matched(h.take(p)) + delta)[t]);
            assert(rows_matched(h.take(p + 1))[t] == rows_matched(h)[t]);
        }
    }
}

proof fn lemma_take_prefix_cols(h: Seq<i32>, p: int)
    requires
        0 <= p <= h.len(),
    ensures
        cols_matched(h.take(p)).len() <= cols_matched(h).len(),
        forall|t: int|
            0 <= t < cols_matched(h.take(p)).len() ==> #[trigger] cols_matched(h.take(p))[t]
                == cols_matched(h)[t],
    decreases h.len() - p,
{
    if p == h.len() {
        assert(h.take(p) =~= h);
    } else {
        lemma_take_prefix_cols(h, p + 1);
        assert(h.take(p + 1).drop_last() =~= h.take(p));
        assert(h.take(p + 1).last() == h[p]);
        let delta = if h[p] != 0 {
            seq![p]
        } else {
            Seq::<int>::empty()
        };
        assert(cols_matched(h.take(p + 1)) == cols_matched(h.take(p)) + delta);
        assert forall|t: int| 0 <= t < cols_matched(h.take(p)).len() implies #[trigger] cols_matched(
            h.take(p),
        )[t] == cols_matched(h)[t] by {
            assert(cols_matched(h.take(p))[t] == (cols_matched(h.take(p)) + delta)[t]);
            assert(cols_matched(h.take(p + 1))[t] == cols_matched(h)[t]);
        }
    }
}

/// Half the number of mismatched matched pairs, in fixed point: the
/// transposition count of the Jaro formula.
pub fn transpositions(s1: &str, s2: &str, hash_1: &Vec<i32>, hash_2: &Vec<i32>) -> (r: u64)
    requires
        hash_1@.len() == s1@.len(),
        hash_2@.len() == s2@.len(),
        s1@.len() <= i32::MAX as int,
        rows_matched(hash_1@).len() <= cols_matched(hash_2@).len(),
    ensures
        r as int == SCORE_ONE as int * diff_count(
            s1@,
            s2@,
            rows_matched(hash_1@),
            cols_matched(hash_2@),
            rows_matched(hash_1@).len() as int,
        ) / 2,
{
    let d = diff_pairs(s1, s2, hash_1, hash_2);
    let half: u64 = SCORE_ONE / 2;
    proof {
        lemma_rows_matched_props(hash_1@);
        assert(d <= s1@.len());
        assert(half == 500_000_000u64);
        assert(d as int * 500_000_000int == SCORE_ONE as int * (d as int) / 2)
            by (nonlinear_arith);
    }
    d * half
}

fn zero_vec(n: usize) -> (v: Vec<i32>)
    ensures
        v@ == zeros(n as int),
{
    let mut v: Vec<i32> = Vec::new();
    let mut i: usize = 0;
    while i < n
        invariant
            0 <= i <= n,
            v@ =~= zeros(i as int),
        decreases n - i,
    {
        v.push(0);
        proof {
            assert(v@ =~= zeros(i + 1 as int));
        }
        i += 1;
    }
    proof {
        assert(v@ =~= zeros(n as int));
    }
    v
}

/// The Jaro score of two strings, in fixed point.
pub fn jaro_score(s1: &str, s2: &str) -> (r: u64)
    requires
        s1@.len() <= i32::MAX as int,
        s2@.len() <= i32::MAX as int,
    ensures
        r as int == jaro_fp(s1@, s2@),
        r <= SCORE_ONE,
{
    proof {
        lemma_jaro_fp_range(s1@, s2@);
    }
    let len1 = s1.unicode_len();
    let len2 = s2.unicode_len();
    if len1 == 0 || len2 == 0 {
        return 0;
    }
    if str_eq(s1, s2) {
        return SCORE_ONE;
    }
    let max_matching_dist = max_distance_allowed(len1 as i32, len2 as i32);
    let ghost d = max_matching_dist as int;
    let mut matching_hash_1 = zero_vec(len1);
    let mut matching_hash_2 = zero_vec(len2);
    let m = matches(s1, s2, &mut matching_hash_1, &mut matching_hash_2, max_matching_dist);
    if m == 0 {
        return 0;
    }
    proof {
        lemma_greedy_invariants(s1@, s2@, d, len1 as int);
        let gr = greedy(s1@, s2@, d, zeros(len1 as int), zeros(len2 as int), len1 as int);
        assert(matching_hash_1@ == gr.0 && matching_hash_2@ == gr.1);
        lemma_cols_matched_props(gr.1);
        assert(rows_matched(matching_hash_1@).len() == m as int);
        assert(cols_matched(matching_hash_2@).len() == m as int);
        assert(m as int <= len2 as int);
    }
    let dpairs = diff_pairs(s1, s2, &matching_hash_1, &matching_hash_2);
    let mu = m as u128;
    let l1 = len1 as u128;
    let l2 = len2 as u128;
    let df = dpairs as u128;
    proof {
        let mui = mu as int;
        let l1i = l1 as int;
        let l2i = l2 as int;
        let dfi = df as int;
        assert(df <= mu);
        assert(1 <= mu && mu <= l1 && mu <= l2);
        assert(l1 <= 0x8000_0000 && l2 <= 0x8000_0000);
        assert(2 * mui * mui <= 0x1_0000_0000_0000_0000
            && 2 * mui * mui * l2i <= 0x1_0000_0000_0000_0000_0000_0000
            && 2 * mui * mui * l1i <= 0x1_0000_0000_0000_0000_0000_0000
            && (2 * mui - dfi) * l1i <= 0x1_0000_0000_0000_0000
            && (2 * mui - dfi) * l1i * l2i <= 0x1_0000_0000_0000_0000_0000_0000
            && 6 * l1i * l2i <= 0x6_0000_0000_0000_0000
            && 6 * l1i * l2i * mui <= 0x6_0000_0000_0000_0000_0000_0000
            && 0 < 2 * mui * mui * l2i + 2 * mui * mui * l1i + (2 * mui - dfi) * l1i * l2i
            && 2 * mui * mui * l2i + 2 * mui * mui * l1i + (2 * mui - dfi) * l1i * l2i <= 6 * l1i
            * l2i * mui) by (nonlinear_arith)
            requires
                1 <= mui,
                mui <= l1i,
                mui <= l2i,
                0 <= dfi <= mui,
                l1i <= 0x8000_0000,
                l2i <= 0x8000_0000,
        {
        }
    }
    let core: u128 = 2 * mu * mu * l2 + 2 * mu * mu * l1 + (2 * mu - df) * l1 * l2;
    let den: u128 = 6 * l1 * l2 * mu;
    proof {
        lemma_div_pos_is_pos(SCORE_ONE as int * core as int, den as int);
        lemma_div_is_ordered(
            SCORE_ONE as int * core as int,
            SCORE_ONE as int * den as int,
            den as int,
        );
        lemma_div_multiples_vanish(SCORE_ONE as int, den as int);
        assert(SCORE_ONE as int * den as int / den as int == SCORE_ONE as int);
    }
    let r: u64 = ((SCORE_ONE as u128) * core / den) as u64;
    r
}

/// The Jaro-Winkler score of two strings, in fixed point: the Jaro score
/// boosted for a shared prefix once it clears the configured threshold.
pub fn jaro_winkler_score(s1: &str, s2: &str, config: &JaroWinklerConfigOptions) -> (r: u64)
    requires
        s1@.len() <= i32::MAX as int,
        s2@.len() <= i32::MAX as int,
        config.wf(),
    ensures
        r as int == jaro_winkler_fp(s1@, s2@, *config),
        r <= SCORE_ONE,
{
    let jaro_distance = jaro_score(s1, s2);
    if jaro_distance > config.similarity_threshold {
        let mut prefix_length = common_prefix_length(s1, s2);
        if config.max_prefix_length < prefix_length {
            prefix_length = config.max_prefix_length;
        }
        let sf = config.scaling_factor as u128;
        let p = prefix_length as u128;
        let rest = (SCORE_ONE - jaro_distance) as u128;
        proof {
            let sfi = sf as int;
            let pi = p as int;
            let resti = rest as int;
            assert(0 <= pi <= config.max_prefix_length as int);
            assert(sfi * pi <= SCORE_ONE as int) by (nonlinear_arith)
                requires
                    0 <= sfi,
                    0 <= pi <= config.max_prefix_length as int,
                    sfi * config.max_prefix_length as int <= SCORE_ONE as int,
            {
            }
            lemma_mul_upper_bound(sfi * pi, SCORE_ONE as int, resti, SCORE_ONE as int);
            assert(sfi * pi * resti <= SCORE_ONE as int * resti) by {
                lemma_mul_inequality(sfi * pi, SCORE_ONE as int, resti);
            }
            lemma_div_is_ordered(
                sfi * pi * resti,
                SCORE_ONE as int * resti,
                SCORE_ONE as int,
            );
            lemma_div_multiples_vanish(resti, SCORE_ONE as int);
            assert(SCORE_ONE as int * resti / (SCORE_ONE as int) == resti);
            lemma_div_pos_is_pos(sfi * pi * resti, SCORE_ONE as int);
        }
        let bonus: u128 = sf * p * rest / (SCORE_ONE as u128);
        let r: u64 = jaro_distance + (bonus as u64);
        r
    } else {
        jaro_distance
    }
}

} // verus!
