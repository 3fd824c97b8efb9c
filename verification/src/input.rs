use crate::path::spec_views;
use vstd::prelude::*;

verus! {

/// Whether `c` is white space: a character with the Unicode property
/// White_Space.
pub open spec fn spec_is_whitespace(c: char) -> bool {
    let u = c as u32;
    ||| 0x09 <= u <= 0x0d
    ||| u == 0x20
    ||| u == 0x85
    ||| u == 0xa0
    ||| u == 0x1680
    ||| 0x2000 <= u <= 0x200a
    ||| u == 0x2028
    ||| u == 0x2029
    ||| u == 0x202f
    ||| u == 0x205f
    ||| u == 0x3000
}

/// The words of `s`: its longest stretches without white space, in order.
pub open spec fn spec_split_whitespace(s: Seq<char>) -> Seq<Seq<char>>
    decreases s.len(),
{
    if s.len() == 0 {
        Seq::empty()
    } else {
        let before = spec_split_whitespace(s.drop_last());
        if spec_is_whitespace(s.last()) {
            before
        } else if s.len() > 1 && !spec_is_whitespace(s[s.len() - 2]) && before.len() > 0 {
            before.update(before.len() - 1, before.last().push(s.last()))
        } else {
            before.push(seq![s.last()])
        }
    }
}

/// Whether `c` is one of the decimal digits `0` to `9`.
pub open spec fn spec_is_digit(c: char) -> bool {
    0x30 <= c as u32 <= 0x39
}

/// The value of `c` as a decimal digit; 0 where it is none.
pub open spec fn spec_digit(c: char) -> nat {
    if spec_is_digit(c) {
        (c as u32 - 0x30) as nat
    } else {
        0
    }
}

/// Whether every character of `d` is a decimal digit.
pub open spec fn spec_all_digits(d: Seq<char>) -> bool {
    forall|i: int| 0 <= i < d.len() ==> spec_is_digit(#[trigger] d[i])
}

/// The number that the digits `d` write in base ten.
pub open spec fn spec_decimal(d: Seq<char>) -> nat
    decreases d.len(),
{
    if d.len() == 0 {
        0
    } else {
        spec_decimal(d.drop_last()) * 10 + spec_digit(d.last())
    }
}

/// The number that `s` writes: decimal digits, at least one, with or without
/// a plus sign before them, that give a number within the range of `usize`.
pub open spec fn spec_parse_usize(s: Seq<char>) -> Option<usize> {
    let d = if s.len() > 0 && s[0] == '+' {
        s.subrange(1, s.len() as int)
    } else {
        s
    };
    if d.len() == 0 || !spec_all_digits(d) || spec_decimal(d) > usize::MAX {
        None
    } else {
        Some(spec_decimal(d) as usize)
    }
}

/// No word is empty, and none holds white space.
pub proof fn lemma_words_hold_no_whitespace(s: Seq<char>)
    ensures
        forall|i: int, j: int|
            0 <= i < spec_split_whitespace(s).len() && 0 <= j < spec_split_whitespace(s)[i].len()
                ==> !spec_is_whitespace(#[trigger] spec_split_whitespace(s)[i][j]),
        forall|i: int|
            0 <= i < spec_split_whitespace(s).len() ==> (#[trigger] spec_split_whitespace(
                s,
            )[i]).len() > 0,
    decreases s.len(),
{
    if s.len() > 0 {
        lemma_words_hold_no_whitespace(s.drop_last());
        let before = spec_split_whitespace(s.drop_last());
        let words = spec_split_whitespace(s);
        let c = s.last();
        if !spec_is_whitespace(c) {
            let grown = s.len() > 1 && !spec_is_whitespace(s[s.len() - 2]) && before.len() > 0;
            assert forall|i: int, j: int| 0 <= i < words.len() && 0 <= j < words[i].len() implies !spec_is_whitespace(
                #[trigger] words[i][j],
            ) by {
                if i < words.len() - 1 {
                    assert(words[i] == before[i]);
                } else if grown {
                    assert(words[i] == before.last().push(c));
                    if j < before.last().len() {
                        assert(words[i][j] == before[before.len() - 1][j]);
                    }
                } else {
                    assert(words[i] == seq![c]);
                }
            }
            assert forall|i: int| 0 <= i < words.len() implies (#[trigger] words[i]).len() > 0 by {
                if i < words.len() - 1 {
                    assert(words[i] == before[i]);
                } else if grown {
                    assert(words[i] == before.last().push(c));
                } else {
                    assert(words[i] == seq![c]);
                }
            }
        }
    }
}

/// A text without white space is one word, and an empty text has none.
pub proof fn lemma_one_word(s: Seq<char>)
    requires
        forall|j: int| 0 <= j < s.len() ==> !spec_is_whitespace(#[trigger] s[j]),
    ensures
        spec_split_whitespace(s) == (if s.len() == 0 {
            Seq::<Seq<char>>::empty()
        } else {
            seq![s]
        }),
    decreases s.len(),
{
    if s.len() > 0 {
        let before = s.drop_last();
        assert forall|j: int| 0 <= j < before.len() implies !spec_is_whitespace(
            #[trigger] before[j],
        ) by {
            assert(before[j] == s[j]);
        }
        lemma_one_word(before);
        assert(before.push(s.last()) =~= s);
        if s.len() > 1 {
            assert(before[before.len() - 1] == s[s.len() - 2]);
            assert(seq![before].last() == before);
            assert(seq![before].update(0, before.push(s.last())) =~= seq![s]);
        } else {
            assert(seq![s.last()] =~= s);
            assert(Seq::<Seq<char>>::empty().push(seq![s.last()]) =~= seq![s]);
        }
    }
}

/// A number written with more digits is not smaller.
pub proof fn lemma_decimal_grows(d: Seq<char>, k: int)
    requires
        0 <= k <= d.len(),
    ensures
        spec_decimal(d.subrange(0, k)) <= spec_decimal(d),
    decreases d.len() - k,
{
    if k == d.len() {
        assert(d.subrange(0, k) =~= d);
    } else {
        lemma_decimal_grows(d, k + 1);
        assert(d.subrange(0, k + 1).drop_last() =~= d.subrange(0, k));
    }
}

/// Tests whether `c` is white space.
pub fn is_whitespace(c: char) -> (r: bool)
    ensures
        r == spec_is_whitespace(c),
{
    let u: u32 = c as u32;
    (0x09 <= u && u <= 0x0d) || u == 0x20 || u == 0x85 || u == 0xa0 || u == 0x1680 || (0x2000 <= u
        && u <= 0x200a) || u == 0x2028 || u == 0x2029 || u == 0x202f || u == 0x205f || u
        == 0x3000
}

/// Reads `s` as a number.
pub fn parse_usize(s: &str) -> (r: Option<usize>)
    ensures
        r == spec_parse_usize(s@),
{
    let n: usize = s.unicode_len();
    let start: usize = if n > 0 && s.get_char(0) == '+' {
        1
    } else {
        0
    };
    let ghost d = s@.subrange(start as int, n as int);
    proof {
        if start == 0 {
            assert(d =~= s@);
        }
        assert(d.subrange(0, 0) =~= Seq::<char>::empty());
    }
    if start == n {
        return None;
    }
    let mut acc: usize = 0;
    let mut i: usize = start;
    while i < n
        invariant
            start <= i <= n,
            n == s@.len(),
            d == s@.subrange(start as int, n as int),
            d == (if s@.len() > 0 && s@[0] == '+' {
                s@.subrange(1, s@.len() as int)
            } else {
                s@
            }),
            acc == spec_decimal(d.subrange(0, i - start)),
            forall|k: int| 0 <= k < i - start ==> spec_is_digit(#[trigger] d[k]),
        decreases n - i,
    {
        let u: u32 = s.get_char(i) as u32;
        assert(d[i - start] == s@[i as int]);
        if u < 0x30 || u > 0x39 {
            assert(!spec_is_digit(d[i - start]));
            return None;
        }
        let digit: usize = (u - 0x30) as usize;
        proof {
            let longer = d.subrange(0, i + 1 - start);
            assert(longer.drop_last() =~= d.subrange(0, i - start));
            assert(longer.last() == d[i - start]);
            assert(spec_decimal(longer) == acc * 10 + digit);
            lemma_decimal_grows(d, i + 1 - start);
        }
        let next: Option<usize> = match acc.checked_mul(10) {
            Some(m) => m.checked_add(digit),
            None => None,
        };
        match next {
            Some(v) => {
                acc = v;
            },
            None => {
                return None;
            },
        }
        i = i + 1;
    }
    assert(d.subrange(0, n - start) =~= d);
    Some(acc)
}

/// The words of `s`.
pub fn split_whitespace(s: &str) -> (r: Vec<String>)
    ensures
        spec_views(r@) == spec_split_whitespace(s@),
{
    let n: usize = s.unicode_len();
    let mut out: Vec<String> = Vec::new();
    let mut start: Option<usize> = None;
    let mut i: usize = 0;
    proof {
        assert(s@.subrange(0, 0) =~= Seq::<char>::empty());
        assert(spec_views(out@) =~= Seq::<Seq<char>>::empty());
    }
    while i < n
        invariant
            i <= n,
            n == s@.len(),
            match start {
                None => spec_split_whitespace(s@.subrange(0, i as int)) == spec_views(out@) && (i
                    == 0 || spec_is_whitespace(s@[i - 1])),
                Some(b) => b < i && !spec_is_whitespace(s@[i - 1]) && spec_split_whitespace(
                    s@.subrange(0, i as int),
                ) == spec_views(out@).push(s@.subrange(b as int, i as int)),
            },
        decreases n - i,
    {
        let c: char = s.get_char(i);
        let ghost before = s@.subrange(0, i as int);
        let ghost now = s@.subrange(0, i + 1);
        proof {
            assert(now.drop_last() =~= before);
            assert(now.last() == c);
            if i > 0 {
                assert(now[now.len() - 2] == s@[i - 1]);
            }
        }
        if is_whitespace(c) {
            if let Some(b) = start {
                let word: String = String::from_str(s.substring_char(b, i));
                proof {
                    assert(spec_views(out@.push(word)) =~= spec_views(out@).push(word@));
                }
                out.push(word);
                start = None;
            }
        } else {
            match start {
                None => {
                    assert(s@.subrange(i as int, i + 1) =~= seq![c]);
                    start = Some(i);
                },
                Some(b) => {
                    let ghost w = spec_views(out@).push(s@.subrange(b as int, i as int));
                    assert(w.last().push(c) =~= s@.subrange(b as int, i + 1));
                    assert(w.update(w.len() - 1, w.last().push(c)) =~= spec_views(out@).push(
                        s@.subrange(b as int, i + 1),
                    ));
                },
            }
        }
        i = i + 1;
    }
    assert(s@.subrange(0, n as int) =~= s@);
    if let Some(b) = start {
        let word: String = String::from_str(s.substring_char(b, n));
        proof {
            assert(spec_views(out@.push(word)) =~= spec_views(out@).push(word@));
        }
        out.push(word);
    }
    out
}

} // verus!
