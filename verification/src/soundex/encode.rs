//! The Soundex encoder: maps a word to its 4-character phonetic code
//! (one letter followed by three digits).
//!
//! The code depends only on the word's letters: case and punctuation do
//! not change it, which `lemma_soundex_letters_only` states.
use crate::prelude::{clean_spec, is_clean_char, is_letter, is_letter_exec, lemma_clean_props,
    push_char, to_upper, to_upper_spec};
use vstd::prelude::*;
use vstd::seq_lib::*;
use vstd::string::*;

verus! {

/// The Soundex digit of a consonant; vowels and unmapped letters give '0'.
pub open spec fn map_code(c: char) -> char {
    if c == 'B' || c == 'F' || c == 'P' || c == 'V' {
        '1'
    } else if c == 'C' || c == 'G' || c == 'J' || c == 'K' || c == 'Q' || c == 'S' || c == 'X'
        || c == 'Z' {
        '2'
    } else if c == 'D' || c == 'T' {
        '3'
    } else if c == 'L' {
        '4'
    } else if c == 'M' || c == 'N' {
        '5'
    } else if c == 'R' {
        '6'
    } else {
        '0'
    }
}

pub open spec fn is_vowel(c: char) -> bool {
    c == 'A' || c == 'E' || c == 'I' || c == 'O' || c == 'U'
}

pub open spec fn is_hwy(c: char) -> bool {
    c == 'H' || c == 'W' || c == 'Y'
}

/// The word's letters, upper-cased, with everything else dropped.
pub open spec fn letters_upper(s: Seq<char>) -> Seq<char> {
    s.filter(|c: char| is_letter(c)).map_values(|c: char| to_upper_spec(c))
}

/// The remainder with the transparent letters H, W and Y removed.
pub open spec fn drop_hwy(s: Seq<char>) -> Seq<char> {
    s.filter(|c: char| !is_hwy(c))
}

/// The consonant-coding state machine over the remainder of the word.
/// A consonant whose digit repeats the previous one (or repeats the
/// previous letter) is kept only when a vowel intervened.
pub open spec fn sdx_encode(rest: Seq<char>, prev_letter: char, prev_code: char, was_vowel: bool) -> Seq<char>
    decreases rest.len(),
{
    if rest.len() == 0 {
        Seq::empty()
    } else {
        let c = rest[0];
        let tail = rest.drop_first();
        if is_vowel(c) {
            sdx_encode(tail, prev_letter, prev_code, true)
        } else {
            let code = map_code(c);
            if code == prev_code || c == prev_letter {
                if was_vowel {
                    seq![code] + sdx_encode(tail, c, code, false)
                } else {
                    sdx_encode(tail, c, code, false)
                }
            } else {
                seq![code] + sdx_encode(tail, c, code, false)
            }
        }
    }
}

/// The full Soundex code of a word: first letter kept, remainder encoded,
/// then truncated or zero-padded to 4 characters. A word without letters
/// encodes to the empty string.
pub open spec fn soundex_spec(s: Seq<char>) -> Seq<char> {
    let l = letters_upper(s);
    if l.len() == 0 {
        Seq::empty()
    } else {
        let body = seq![l[0]] + sdx_encode(drop_hwy(l.drop_first()), l[0], map_code(l[0]), is_vowel(l[0]));
        if body.len() >= 4 {
            body.subrange(0, 4)
        } else {
            body + Seq::new((4 - body.len()) as nat, |i: int| '0')
        }
    }
}

/// The Soundex code reads nothing but the word's letters: two inputs with
/// the same letters (case aside) share a code, whatever punctuation or
/// blanks stand between them.
pub proof fn lemma_soundex_letters_only(a: Seq<char>, b: Seq<char>)
    requires
        letters_upper(a) == letters_upper(b),
    ensures
        soundex_spec(a) == soundex_spec(b),
{
}

/// A word with a letter anywhere in it has a nonempty Soundex body.
pub proof fn lemma_has_letter(t: Seq<char>, i: int)
    requires
        0 <= i < t.len(),
        is_letter(t[i]),
    ensures
        letters_upper(t).len() > 0,
{
    t.lemma_filter_contains(|x: char| is_letter(x), i);
    assert(t.filter(|x: char| is_letter(x)).len() > 0);
}

/// A nonempty cleaned string starts with a letter, so it has a code.
pub proof fn lemma_clean_has_letter(s: Seq<char>)
    requires
        clean_spec(s).len() > 0,
    ensures
        letters_upper(clean_spec(s)).len() > 0,
{
    let c = clean_spec(s);
    lemma_clean_props(s);
    assert(is_clean_char(c[0]) && c[0] != ' ');
    assert(is_letter(c[0]));
    c.lemma_filter_contains(|x: char| is_letter(x), 0);
    assert(c.filter(|x: char| is_letter(x)).len() > 0);
}

proof fn lemma_letters_upper_push(s: Seq<char>, c: char)
    ensures
        letters_upper(s.push(c)) == letters_upper(s) + if is_letter(c) {
            seq![to_upper_spec(c)]
        } else {
            Seq::<char>::empty()
        },
{
    let pred = |x: char| is_letter(x);
    assert(s.push(c) =~= s + seq![c]);
    Seq::filter_distributes_over_add(s, seq![c], pred);
    reveal_with_fuel(Seq::filter, 2);
    assert(seq![c].drop_last() =~= Seq::<char>::empty());
    if is_letter(c) {
        assert(seq![c].filter(pred) =~= seq![c]);
        assert(letters_upper(s.push(c)) =~= letters_upper(s) + seq![to_upper_spec(c)]);
    } else {
        assert(seq![c].filter(pred) =~= Seq::<char>::empty());
        assert(letters_upper(s.push(c)) =~= letters_upper(s) + Seq::<char>::empty());
    }
}

proof fn lemma_drop_hwy_front(s: Seq<char>)
    requires
        s.len() > 0,
    ensures
        drop_hwy(s) == if is_hwy(s[0]) {
            drop_hwy(s.drop_first())
        } else {
            seq![s[0]] + drop_hwy(s.drop_first())
        },
{
    let pred = |x: char| !is_hwy(x);
    assert(s =~= seq![s[0]] + s.drop_first());
    Seq::filter_distributes_over_add(seq![s[0]], s.drop_first(), pred);
    reveal_with_fuel(Seq::filter, 2);
    assert(seq![s[0]].drop_last() =~= Seq::<char>::empty());
    if is_hwy(s[0]) {
        assert(seq![s[0]].filter(pred) =~= Seq::<char>::empty());
        assert(Seq::<char>::empty() + drop_hwy(s.drop_first()) =~= drop_hwy(s.drop_first()));
    } else {
        assert(seq![s[0]].filter(pred) =~= seq![s[0]]);
    }
}

pub fn map_char_to_number(letter: &char) -> (r: char)
    ensures
        r == map_code(*letter),
{
    match letter {
        'B' | 'F' | 'P' | 'V' => '1',
        'C' | 'G' | 'J' | 'K' | 'Q' | 'S' | 'X' | 'Z' => '2',
        'D' | 'T' => '3',
        'L' => '4',
        'M' | 'N' => '5',
        'R' => '6',
        _ => '0',
    }
}

fn is_vowel_exec(c: char) -> (r: bool)
    ensures
        r == is_vowel(c),
{
    c == 'A' || c == 'E' || c == 'I' || c == 'O' || c == 'U'
}

/// The Soundex code of a word, always 4 characters for a word with a
/// letter in it, empty for the empty string. An input that is nonempty
/// yet has no letter at all is left out: there is no first letter to keep.
pub fn apply_soundex(s1: &str) -> (r: String)
    requires
        s1@.len() == 0 || letters_upper(s1@).len() > 0,
    ensures
        r@ == soundex_spec(s1@),
{
    let n = s1.unicode_len();
    if n == 0 {
        let r = String::new();
        proof {
            assert(s1@ =~= Seq::<char>::empty());
            assert(letters_upper(s1@) =~= Seq::<char>::empty()) by {
                s1@.lemma_filter_len(|x: char| is_letter(x));
            }
        }
        return r;
    }
    let mut letters: Vec<char> = Vec::new();
    let mut i: usize = 0;
    while i < n
        invariant
            n == s1@.len(),
            0 <= i <= n,
            letters@ =~= letters_upper(s1@.subrange(0, i as int)),
        decreases n - i,
    {
        let c = s1.get_char(i);
        proof {
            assert(s1@.subrange(0, i + 1 as int) =~= s1@.subrange(0, i as int).push(s1@[i as int]));
            lemma_letters_upper_push(s1@.subrange(0, i as int), s1@[i as int]);
        }
        if is_letter_exec(c) {
            letters.push(to_upper(c));
        }
        i += 1;
    }
    proof {
        assert(s1@.subrange(0, n as int) =~= s1@);
    }
    let ghost l = letters_upper(s1@);
    let len = letters.len();
    assert(len > 0);
    let first = letters[0];
    let mut code: Vec<char> = Vec::new();
    code.push(first);
    let mut prev_letter = first;
    let mut prev_code = map_char_to_number(&first);
    let mut was_vowel = is_vowel_exec(first);
    let ghost full = seq![l[0]] + sdx_encode(drop_hwy(l.drop_first()), l[0], map_code(l[0]), is_vowel(l[0]));
    let mut j: usize = 1;
    while j < len
        invariant
            len == letters@.len(),
            letters@ == l,
            l.len() > 0,
            1 <= j <= len,
            code@.len() >= 1,
            full == code@ + sdx_encode(
                drop_hwy(l.subrange(j as int, len as int)),
                prev_letter,
                prev_code,
                was_vowel,
            ),
        decreases len - j,
    {
        let c = letters[j];
        let ghost rj = drop_hwy(l.subrange(j as int, len as int));
        let ghost rj1 = drop_hwy(l.subrange(j + 1 as int, len as int));
        proof {
            lemma_drop_hwy_front(l.subrange(j as int, len as int));
            assert(l.subrange(j as int, len as int).drop_first() =~= l.subrange(
                j + 1 as int,
                len as int,
            ));
            assert(l.subrange(j as int, len as int)[0] == c);
        }
        if c == 'H' || c == 'W' || c == 'Y' {
            proof {
                assert(rj == rj1);
            }
        } else {
            proof {
                assert(rj =~= seq![c] + rj1);
                assert((seq![c] + rj1)[0] == c);
                assert((seq![c] + rj1).drop_first() =~= rj1);
            }
            if is_vowel_exec(c) {
                was_vowel = true;
                proof {
                    assert(sdx_encode(rj, prev_letter, prev_code, false) == sdx_encode(
                        rj1,
                        prev_letter,
                        prev_code,
                        true,
                    ) || sdx_encode(rj, prev_letter, prev_code, true) == sdx_encode(
                        rj1,
                        prev_letter,
                        prev_code,
                        true,
                    ));
                }
            } else {
                let cd = map_char_to_number(&c);
                if cd == prev_code || c == prev_letter {
                    if was_vowel {
                        code.push(cd);
                        proof {
                            assert(code@ =~= (code@.drop_last() + seq![cd]));
                            assert((code@.drop_last() + seq![cd]) + sdx_encode(rj1, c, cd, false)
                                =~= code@.drop_last() + (seq![cd] + sdx_encode(rj1, c, cd, false)));
                        }
                    }
                    was_vowel = false;
                    prev_code = cd;
                    prev_letter = c;
                } else {
                    was_vowel = false;
                    prev_code = cd;
                    prev_letter = c;
                    code.push(cd);
                    proof {
                        assert(code@ =~= (code@.drop_last() + seq![cd]));
                        assert((code@.drop_last() + seq![cd]) + sdx_encode(rj1, c, cd, false)
                            =~= code@.drop_last() + (seq![cd] + sdx_encode(rj1, c, cd, false)));
                    }
                }
            }
        }
        j += 1;
    }
    proof {
        assert(l.subrange(len as int, len as int) =~= Seq::<char>::empty());
        assert(drop_hwy(Seq::<char>::empty()) =~= Seq::<char>::empty()) by {
            Seq::<char>::empty().lemma_filter_len(|x: char| !is_hwy(x));
        }
        assert(code@ + Seq::<char>::empty() =~= code@);
        assert(code@ == full);
    }
    let mut out = String::new();
    let code_len = code.len();
    let ghost target = soundex_spec(s1@);
    proof {
        if full.len() < 4 {
            assert(target =~= full + Seq::new((4 - full.len()) as nat, |q: int| '0'));
        } else {
            assert(target =~= full.subrange(0, 4));
        }
        assert(target.len() == 4);
    }
    let mut k: usize = 0;
    while k < 4
        invariant
            code_len == code@.len(),
            code@ == full,
            target == soundex_spec(s1@),
            target.len() == 4,
            full.len() < 4 ==> target =~= full + Seq::new((4 - full.len()) as nat, |q: int| '0'),
            full.len() >= 4 ==> target =~= full.subrange(0, 4),
            0 <= k <= 4,
            out@ =~= target.subrange(0, k as int),
        decreases 4 - k,
    {
        if k < code_len {
            push_char(&mut out, code[k]);
            proof {
                assert(target[k as int] == full[k as int]);
            }
        } else {
            push_char(&mut out, '0');
            proof {
                assert(full.len() < 4);
                assert(target[k as int] == '0');
            }
        }
        proof {
            assert(target.subrange(0, k + 1 as int) =~= target.subrange(0, k as int).push(
                target[k as int],
            ));
        }
        k += 1;
    }
    proof {
        assert(out@ =~= target);
    }
    out
}

} // verus!
