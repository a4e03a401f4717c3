//! Token-set similarity shared by the Jaccard and Soundex-Jaccard
//! matchers: whitespace tokenization, duplicate removal, and the overlap
//! coefficient `|A ∩ B| / min(|A|, |B|)` over two token sets.
//!
//! Of the two set-similarity conventions (overlap coefficient and
//! intersection-over-union) this library uses the overlap coefficient,
//! and both set-based matchers use it, so the choice is uniform.
use crate::prelude::{SCORE_ONE, str_eq, push_char};
use vstd::prelude::*;
use vstd::seq_lib::*;
use vstd::set_lib::*;
use vstd::string::*;
use vstd::arithmetic::div_mod::{lemma_div_is_ordered, lemma_div_pos_is_pos,
    lemma_div_multiples_vanish};

verus! {

/// The views of a vector of strings, as a sequence of character sequences.
pub open spec fn views_of(v: Seq<String>) -> Seq<Seq<char>> {
    v.map_values(|t: String| t@)
}

/// Whitespace splitting with an accumulator holding the token in progress.
pub open spec fn split_acc(s: Seq<char>, cur: Seq<char>) -> Seq<Seq<char>>
    decreases s.len(),
{
    if s.len() == 0 {
        if cur.len() == 0 {
            Seq::empty()
        } else {
            seq![cur]
        }
    } else if s[0] == ' ' {
        (if cur.len() == 0 {
            Seq::<Seq<char>>::empty()
        } else {
            seq![cur]
        }) + split_acc(s.drop_first(), Seq::empty())
    } else {
        split_acc(s.drop_first(), cur.push(s[0]))
    }
}

/// The blank-separated tokens of a string, in order, duplicates kept.
pub open spec fn tokens_spec(s: Seq<char>) -> Seq<Seq<char>> {
    split_acc(s, Seq::empty())
}

/// The set of blank-separated tokens of a string.
pub open spec fn token_set(s: Seq<char>) -> Set<Seq<char>> {
    tokens_spec(s).to_set()
}

proof fn lemma_split_acc_wf(s: Seq<char>, cur: Seq<char>)
    requires
        forall|j: int| 0 <= j < cur.len() ==> cur[j] != ' ',
    ensures
        forall|i: int|
            0 <= i < split_acc(s, cur).len() ==> (#[trigger] split_acc(s, cur)[i]).len() > 0,
        forall|i: int, j: int|
            0 <= i < split_acc(s, cur).len() && 0 <= j < split_acc(s, cur)[i].len()
                ==> (#[trigger] split_acc(s, cur)[i][j]) != ' ',
        forall|i: int, j: int|
            0 <= i < split_acc(s, cur).len() && 0 <= j < split_acc(s, cur)[i].len()
                ==> char_from(#[trigger] split_acc(s, cur)[i][j], s, cur),
    decreases s.len(),
{
    let t = split_acc(s, cur);
    if s.len() == 0 {
        if cur.len() > 0 {
            assert(forall|j: int| 0 <= j < cur.len() ==> cur.contains(#[trigger] cur[j]));
        }
    } else {
        let tail = s.drop_first();
        assert forall|c: char| tail.contains(c) implies s.contains(c) by {
            let i = choose|i: int| 0 <= i < tail.len() && tail[i] == c;
            assert(s[i + 1] == c);
        }
        if s[0] == ' ' {
            let rest = split_acc(tail, Seq::<char>::empty());
            lemma_split_acc_wf(tail, Seq::<char>::empty());
            let head = if cur.len() == 0 {
                Seq::<Seq<char>>::empty()
            } else {
                seq![cur]
            };
            assert(t == head + rest);
            assert forall|i: int| 0 <= i < t.len() implies (#[trigger] t[i]).len() > 0 by {
                if i >= head.len() {
                    assert(t[i] == rest[i - head.len()]);
                }
            }
            assert forall|i: int, j: int|
                0 <= i < t.len() && 0 <= j < t[i].len() implies (#[trigger] t[i][j]) != ' '
                && char_from(t[i][j], s, cur) by {
                if i < head.len() {
                    assert(t[i] == cur);
                    assert(cur.contains(cur[j]));
                } else {
                    assert(t[i] == rest[i - head.len()]);
                    assert(rest[i - head.len()][j] != ' ');
                    assert(char_from(rest[i - head.len()][j], tail, Seq::<char>::empty()));
                }
            }
        } else {
            let cur2 = cur.push(s[0]);
            assert(forall|j: int| 0 <= j < cur2.len() ==> cur2[j] != ' ');
            lemma_split_acc_wf(tail, cur2);
            assert(t == split_acc(tail, cur2));
            assert forall|i: int, j: int|
                0 <= i < t.len() && 0 <= j < t[i].len() implies char_from(
                #[trigger] t[i][j],
                s,
                cur,
            ) by {
                let c = t[i][j];
                assert(char_from(c, tail, cur2));
                if tail.contains(c) {
                    assert(s.contains(c));
                } else {
                    let k = choose|k: int| 0 <= k < cur2.len() && cur2[k] == c;
                    if k < cur.len() {
                        assert(cur[k] == c);
                        assert(cur.contains(c));
                    } else {
                        assert(s[0] == c);
                        assert(s.contains(c));
                    }
                }
            }
        }
    }
}

/// A character drawn from the string being split or the token in progress.
pub open spec fn char_from(c: char, s: Seq<char>, cur: Seq<char>) -> bool {
    s.contains(c) || cur.contains(c)
}

/// Every token is nonempty, blank-free, and made of the string's characters.
pub proof fn lemma_tokens_wf(s: Seq<char>)
    ensures
        forall|i: int| 0 <= i < tokens_spec(s).len() ==> (#[trigger] tokens_spec(s)[i]).len() > 0,
        forall|i: int, j: int|
            0 <= i < tokens_spec(s).len() && 0 <= j < tokens_spec(s)[i].len()
                ==> (#[trigger] tokens_spec(s)[i][j]) != ' ',
        forall|i: int, j: int|
            0 <= i < tokens_spec(s).len() && 0 <= j < tokens_spec(s)[i].len() ==> s.contains(
                #[trigger] tokens_spec(s)[i][j],
            ),
{
    lemma_split_acc_wf(s, Seq::<char>::empty());
}

proof fn lemma_split_acc_nonempty(s: Seq<char>, cur: Seq<char>)
    requires
        cur.len() > 0 || exists|i: int| 0 <= i < s.len() && s[i] != ' ',
    ensures
        split_acc(s, cur).len() > 0,
    decreases s.len(),
{
    if s.len() == 0 {
    } else if s[0] == ' ' {
        if cur.len() == 0 {
            let i = choose|i: int| 0 <= i < s.len() && s[i] != ' ';
            assert(s.drop_first()[i - 1] != ' ');
            lemma_split_acc_nonempty(s.drop_first(), Seq::<char>::empty());
        }
    } else {
        lemma_split_acc_nonempty(s.drop_first(), cur.push(s[0]));
    }
}

/// A string with any non-blank character splits into at least one token.
pub proof fn lemma_tokens_nonempty(s: Seq<char>)
    requires
        exists|i: int| 0 <= i < s.len() && s[i] != ' ',
    ensures
        tokens_spec(s).len() > 0,
{
    lemma_split_acc_nonempty(s, Seq::<char>::empty());
}

/// Splits a string at blanks into its nonempty tokens, in order.
pub fn split_tokens(s: &str) -> (r: Vec<String>)
    ensures
        views_of(r@) == tokens_spec(s@),
{
    let n = s.unicode_len();
    let mut r: Vec<String> = Vec::new();
    let mut cur = String::new();
    proof {
        assert(s@.subrange(0, n as int) =~= s@);
        assert(cur@ =~= Seq::<char>::empty());
        assert(views_of(r@) =~= Seq::<Seq<char>>::empty());
        assert(views_of(r@) + split_acc(s@, cur@) =~= split_acc(s@, cur@));
        assert(split_acc(s@, cur@) == tokens_spec(s@));
    }
    let mut i: usize = 0;
    while i < n
        invariant
            n == s@.len(),
            0 <= i <= n,
            tokens_spec(s@) == views_of(r@) + split_acc(s@.subrange(i as int, n as int), cur@),
        decreases n - i,
    {
        let c = s.get_char(i);
        let ghost head = s@.subrange(i as int, n as int);
        let ghost tail = s@.subrange(i + 1 as int, n as int);
        proof {
            assert(head =~= seq![s@[i as int]] + tail);
            assert(head[0] == s@[i as int]);
            assert(head.drop_first() =~= tail);
        }
        if c == ' ' {
            if !cur.as_str().is_empty() {
                let ghost old_r = r@;
                let ghost old_cur = cur@;
                proof {
                    assert(split_acc(head, old_cur) == seq![old_cur] + split_acc(
                        tail,
                        Seq::<char>::empty(),
                    ));
                }
                r.push(cur);
                cur = String::new();
                proof {
                    assert(cur@ =~= Seq::<char>::empty());
                    assert(views_of(r@) =~= views_of(old_r).push(old_cur));
                    assert(views_of(old_r) + (seq![old_cur] + split_acc(tail, Seq::<char>::empty()))
                        =~= views_of(old_r).push(old_cur) + split_acc(tail, Seq::<char>::empty()));
                }
            } else {
                proof {
                    assert(cur@ =~= Seq::<char>::empty());
                    assert(split_acc(head, cur@) == Seq::<Seq<char>>::empty() + split_acc(
                        tail,
                        Seq::<char>::empty(),
                    ));
                    assert(Seq::<Seq<char>>::empty() + split_acc(tail, Seq::<char>::empty())
                        =~= split_acc(tail, Seq::<char>::empty()));
                    assert(split_acc(tail, cur@) == split_acc(tail, Seq::<char>::empty()));
                }
            }
        } else {
            let ghost old_cur = cur@;
            proof {
                assert(split_acc(head, old_cur) == split_acc(tail, old_cur.push(s@[i as int])));
            }
            push_char(&mut cur, c);
        }
        i += 1;
    }
    proof {
        assert(s@.subrange(n as int, n as int) =~= Seq::<char>::empty());
    }
    if !cur.as_str().is_empty() {
        let ghost old_r = r@;
        let ghost old_cur = cur@;
        proof {
            assert(split_acc(Seq::<char>::empty(), old_cur) == seq![old_cur]);
            assert(split_acc(s@.subrange(n as int, n as int), old_cur) == seq![old_cur]);
        }
        r.push(cur);
        proof {
            assert(views_of(r@) =~= views_of(old_r).push(old_cur));
            assert(views_of(old_r) + seq![old_cur] =~= views_of(old_r).push(old_cur));
        }
    } else {
        proof {
            assert(cur@ =~= Seq::<char>::empty());
            assert(split_acc(s@.subrange(n as int, n as int), cur@)
                == Seq::<Seq<char>>::empty());
            assert(views_of(r@) + Seq::<Seq<char>>::empty() =~= views_of(r@));
        }
    }
    r
}

/// Whether some string in the vector reads the same as the given one.
pub fn contains_string(v: &Vec<String>, x: &str) -> (r: bool)
    ensures
        r == views_of(v@).contains(x@),
{
    let mut i: usize = 0;
    let n = v.len();
    while i < n
        invariant
            n == v@.len(),
            0 <= i <= n,
            forall|j: int| 0 <= j < i ==> views_of(v@)[j] != x@,
        decreases n - i,
    {
        if str_eq(v[i].as_str(), x) {
            assert(views_of(v@)[i as int] == x@);
            return true;
        }
        i += 1;
    }
    assert(!views_of(v@).contains(x@));
    false
}

/// Appends the string unless an equal one is already present, keeping the
/// vector duplicate-free.
pub fn push_unique(v: &mut Vec<String>, x: String)
    ensures
        views_of(final(v)@) == if views_of(old(v)@).contains(x@) {
            views_of(old(v)@)
        } else {
            views_of(old(v)@).push(x@)
        },
{
    let present = contains_string(v, x.as_str());
    if !present {
        let ghost old_v = v@;
        v.push(x);
        proof {
            assert(views_of(v@) =~= views_of(old_v).push(x@));
        }
    }
}

/// Keeps the first occurrence of each string and drops later duplicates,
/// turning a token list into a set carried as a vector.
pub fn dedup_strings(v: &Vec<String>) -> (r: Vec<String>)
    ensures
        views_of(r@).no_duplicates(),
        views_of(r@).to_set() == views_of(v@).to_set(),
{
    let mut r: Vec<String> = Vec::new();
    let n = v.len();
    proof {
        assert(views_of(r@) =~= Seq::<Seq<char>>::empty());
        assert(views_of(r@).to_set() =~= views_of(v@).take(0).to_set());
    }
    let mut i: usize = 0;
    while i < n
        invariant
            n == v@.len(),
            0 <= i <= n,
            views_of(r@).no_duplicates(),
            views_of(r@).to_set() == views_of(v@).take(i as int).to_set(),
        decreases n - i,
    {
        let ghost old_views = views_of(r@);
        let x = v[i].clone();
        let ghost xv = x@;
        push_unique(&mut r, x);
        proof {
            assert(views_of(v@).take(i + 1 as int) =~= views_of(v@).take(i as int) + seq![xv]);
            Seq::lemma_to_set_insert_commutes(views_of(v@).take(i as int), xv);
            if old_views.contains(xv) {
                assert(old_views.to_set().contains(xv));
                assert(old_views.to_set() =~= old_views.to_set().insert(xv));
            } else {
                assert(views_of(r@) =~= old_views + seq![xv]);
                Seq::lemma_to_set_insert_commutes(old_views, xv);
                assert(views_of(r@).no_duplicates()) by {
                    assert(forall|t: int|
                        0 <= t < old_views.len() ==> #[trigger] views_of(r@)[t] == old_views[t]);
                    assert(views_of(r@)[old_views.len() as int] == xv);
                }
            }
        }
        i += 1;
    }
    proof {
        assert(views_of(v@).take(n as int) =~= views_of(v@));
    }
    r
}

/// How many entries of `a` (duplicate-free) lie in the set `b`.
pub open spec fn count_in(a: Seq<Seq<char>>, b: Set<Seq<char>>) -> int
    decreases a.len(),
{
    if a.len() == 0 {
        0
    } else {
        count_in(a.drop_last(), b) + if b.contains(a.last()) {
            1int
        } else {
            0int
        }
    }
}

proof fn lemma_count_in_card(a: Seq<Seq<char>>, b: Set<Seq<char>>)
    requires
        a.no_duplicates(),
        b.finite(),
    ensures
        count_in(a, b) == a.to_set().intersect(b).len(),
        a.to_set().intersect(b).len() <= a.len(),
    decreases a.len(),
{
    broadcast use vstd::seq_lib::group_seq_properties;

    if a.len() == 0 {
        assert(a.to_set().intersect(b) =~= Set::<Seq<char>>::empty());
    } else {
        let dl = a.drop_last();
        assert(dl.no_duplicates());
        lemma_count_in_card(dl, b);
        assert(a.to_set() =~= dl.to_set().insert(a.last())) by {
            assert forall|x: Seq<char>| a.to_set().contains(x) implies dl.to_set().insert(
                a.last(),
            ).contains(x) by {
                let i = choose|i: int| 0 <= i < a.len() && a[i] == x;
                if i < a.len() - 1 {
                    assert(dl[i] == x);
                    assert(dl.contains(x));
                }
            }
            assert forall|x: Seq<char>| dl.to_set().insert(a.last()).contains(x) implies a.to_set()
                .contains(x) by {
                if dl.to_set().contains(x) {
                    let i = choose|i: int| 0 <= i < dl.len() && dl[i] == x;
                    assert(a[i] == x);
                } else {
                    assert(a[a.len() - 1] == x);
                }
            }
        }
        assert(!dl.to_set().contains(a.last())) by {
            if dl.to_set().contains(a.last()) {
                let i = choose|i: int| 0 <= i < dl.len() && dl[i] == a.last();
                assert(a[i] == a[a.len() - 1]);
            }
        }
        seq_to_set_is_finite(dl);
        if b.contains(a.last()) {
            assert(a.to_set().intersect(b) =~= dl.to_set().intersect(b).insert(a.last()));
            assert(!dl.to_set().intersect(b).contains(a.last()));
        } else {
            assert(a.to_set().intersect(b) =~= dl.to_set().intersect(b));
        }
    }
}

/// The overlap coefficient in fixed point: `SCORE_ONE · |A ∩ B|` divided
/// by the smaller set's size, and 0 when either set is empty.
pub open spec fn jaccard_fp(a: Set<Seq<char>>, b: Set<Seq<char>>) -> int {
    let m = if a.len() <= b.len() {
        a.len() as int
    } else {
        b.len() as int
    };
    if a.len() == 0 || b.len() == 0 {
        0
    } else {
        SCORE_ONE as int * a.intersect(b).len() / m
    }
}

/// The overlap coefficient lies in `[0, SCORE_ONE]`.
pub proof fn lemma_jaccard_range(a: Set<Seq<char>>, b: Set<Seq<char>>)
    requires
        a.finite(),
        b.finite(),
    ensures
        0 <= jaccard_fp(a, b) <= SCORE_ONE,
{
    if a.len() != 0 && b.len() != 0 {
        let m = if a.len() <= b.len() {
            a.len() as int
        } else {
            b.len() as int
        };
        let x = a.intersect(b).len() as int;
        lemma_len_intersect(a, b);
        assert(a.intersect(b).len() <= a.len());
        lemma_len_intersect(b, a);
        assert(b.intersect(a) =~= a.intersect(b));
        assert(x <= m);
        lemma_div_pos_is_pos(SCORE_ONE as int * x, m);
        lemma_div_is_ordered(SCORE_ONE as int * x, SCORE_ONE as int * m, m);
        lemma_div_multiples_vanish(SCORE_ONE as int, m);
        assert(SCORE_ONE as int * m / m == SCORE_ONE as int);
    }
}

/// Disjoint token sets score zero.
pub proof fn lemma_jaccard_disjoint(a: Set<Seq<char>>, b: Set<Seq<char>>)
    requires
        a.intersect(b) == Set::<Seq<char>>::empty(),
    ensures
        jaccard_fp(a, b) == 0,
{
    if a.len() != 0 && b.len() != 0 {
        let m = if a.len() <= b.len() {
            a.len() as int
        } else {
            b.len() as int
        };
        assert(a.intersect(b).len() == 0);
        assert(SCORE_ONE as int * 0 == 0);
    }
}

/// A nonempty token set scores a full match against itself.
pub proof fn lemma_jaccard_identical(a: Set<Seq<char>>)
    requires
        a.finite(),
        a.len() > 0,
    ensures
        jaccard_fp(a, a) == SCORE_ONE,
{
    assert(a.intersect(a) =~= a);
    lemma_div_multiples_vanish(SCORE_ONE as int, a.len() as int);
}

/// The overlap coefficient of two duplicate-free token vectors, in fixed
/// point: `SCORE_ONE` means the smaller set lies entirely in the larger.
pub fn jaccard_index(s1: &Vec<String>, s2: &Vec<String>) -> (r: u64)
    requires
        views_of(s1@).no_duplicates(),
        views_of(s2@).no_duplicates(),
    ensures
        r as int == jaccard_fp(views_of(s1@).to_set(), views_of(s2@).to_set()),
        r <= SCORE_ONE,
{
    let ghost va = views_of(s1@);
    let ghost vb = views_of(s2@);
    let n1 = s1.len();
    let n2 = s2.len();
    proof {
        va.unique_seq_to_set();
        vb.unique_seq_to_set();
    }
    if n1 == 0 || n2 == 0 {
        proof {
            lemma_jaccard_range(va.to_set(), vb.to_set());
        }
        return 0;
    }
    let mut overlaps: u64 = 0;
    let mut i: usize = 0;
    while i < n1
        invariant
            n1 == s1@.len(),
            n2 == s2@.len(),
            va == views_of(s1@),
            vb == views_of(s2@),
            0 <= i <= n1,
            overlaps <= i,
            overlaps as int == count_in(va.take(i as int), vb.to_set()),
        decreases n1 - i,
    {
        let present = contains_string(s2, s1[i].as_str());
        proof {
            assert(va.take(i + 1 as int).drop_last() =~= va.take(i as int));
            assert(va.take(i + 1 as int).last() == va[i as int]);
            assert(va[i as int] == s1@[i as int]@);
            if present {
                assert(vb.to_set().contains(s1@[i as int]@)) by {
                    assert(vb.contains(s1@[i as int]@));
                }
            } else {
                assert(!vb.to_set().contains(s1@[i as int]@)) by {
                    if vb.to_set().contains(s1@[i as int]@) {
                        assert(vb.contains(s1@[i as int]@));
                    }
                }
            }
        }
        if present {
            overlaps += 1;
        }
        i += 1;
    }
    proof {
        assert(va.take(n1 as int) =~= va);
        assert(va.no_duplicates());
        vstd::set_lib::lemma_len_intersect(va.to_set(), vb.to_set());
        lemma_count_in_card(va, vb.to_set());
        assert(overlaps as int == va.to_set().intersect(vb.to_set()).len());
    }
    let m: u64 = if n1 <= n2 {
        n1 as u64
    } else {
        n2 as u64
    };
    proof {
        assert(va.to_set().len() == n1 && vb.to_set().len() == n2);
        assert(overlaps <= m) by {
            lemma_len_intersect(va.to_set(), vb.to_set());
            lemma_len_intersect(vb.to_set(), va.to_set());
            assert(vb.to_set().intersect(va.to_set()) =~= va.to_set().intersect(vb.to_set()));
        }
        lemma_jaccard_range(va.to_set(), vb.to_set());
    }
    let num: u128 = (SCORE_ONE as u128) * (overlaps as u128);
    let r: u64 = (num / (m as u128)) as u64;
    proof {
        assert(r as int == SCORE_ONE as int * (overlaps as int) / (m as int)) by {
            assert(num == SCORE_ONE as int * (overlaps as int));
            lemma_div_pos_is_pos(SCORE_ONE as int * (overlaps as int), m as int);
            lemma_div_is_ordered(
                SCORE_ONE as int * (overlaps as int),
                SCORE_ONE as int * (m as int),
                m as int,
            );
            lemma_div_multiples_vanish(SCORE_ONE as int, m as int);
        }
    }
    r
}

} // verus!
