//! Splitting a command line into words, and reading decimal numbers.
use vstd::prelude::*;
use crate::text::{chars_of, string_of, is_white, white_space};

verus! {

/// The first position at or after `i` that does not hold white space.
pub open spec fn skip_ws(s: Seq<char>, i: int) -> int
    decreases s.len() - i,
{
    if 0 <= i < s.len() && white_space(s[i]) {
        skip_ws(s, i + 1)
    } else {
        i
    }
}

/// The first position at or after `i` that holds white space, or the end.
pub open spec fn word_end(s: Seq<char>, i: int) -> int
    decreases s.len() - i,
{
    if 0 <= i < s.len() && !white_space(s[i]) {
        word_end(s, i + 1)
    } else {
        i
    }
}

pub proof fn lemma_skip_ws(s: Seq<char>, i: int)
    requires
        0 <= i <= s.len(),
    ensures
        i <= skip_ws(s, i) <= s.len(),
        skip_ws(s, i) < s.len() ==> !white_space(s[skip_ws(s, i)]),
    decreases s.len() - i,
{
    if i < s.len() && white_space(s[i]) {
        lemma_skip_ws(s, i + 1);
    }
}

pub proof fn lemma_word_end(s: Seq<char>, i: int)
    requires
        0 <= i <= s.len(),
    ensures
        i <= word_end(s, i) <= s.len(),
    decreases s.len() - i,
{
    if i < s.len() && !white_space(s[i]) {
        lemma_word_end(s, i + 1);
    }
}

/// The next word of `t` and what follows it: white space is skipped, the
/// word runs to the next white space, and that one white space character
/// is consumed with it.
pub open spec fn next_word(t: Seq<char>) -> (Option<Seq<char>>, Seq<char>) {
    let a = skip_ws(t, 0);
    let b = word_end(t, a);
    if a >= t.len() {
        (None, Seq::empty())
    } else {
        (Some(t.subrange(a, b)), if b >= t.len() {
            Seq::empty()
        } else {
            t.subrange(b + 1, t.len() as int)
        })
    }
}

/// Hands out the whitespace-separated words of a line one at a time; the
/// rest of the line after a word and its one delimiter stays available.
pub struct SplitWhitespace {
    s: Vec<char>,
    pos: usize,
}

impl SplitWhitespace {
    /// The characters not handed out yet.
    pub closed spec fn rest(&self) -> Seq<char> {
        self.s@.subrange(self.pos as int, self.s@.len() as int)
    }

    pub closed spec fn wf(&self) -> bool {
        self.pos <= self.s@.len()
    }

    pub fn new(s: &str) -> (r: Self)
        ensures
            r.wf(),
            r.rest() == s@,
    {
        let r = SplitWhitespace { s: chars_of(s), pos: 0 };
        assert(r.rest() =~= s@);
        r
    }

    /// The next word: white space is skipped, the word runs to the next white
    /// space, and that one white space character is consumed with it.
    pub fn next(&mut self) -> (r: Option<String>)
        requires
            old(self).wf(),
        ensures
            final(self).wf(),
            r matches Some(w) ==> next_word(old(self).rest()).0 == Some(w@),
            r is None ==> next_word(old(self).rest()).0 is None,
            final(self).rest() == next_word(old(self).rest()).1,
    {
        let ghost t = self.rest();
        let ghost start = self.pos as int;
        let mut a = self.pos;
        while a < self.s.len() && is_white(self.s[a])
            invariant
                self.pos <= a <= self.s@.len(),
                t == self.s@.subrange(start, self.s@.len() as int),
                start == self.pos,
                skip_ws(t, 0) == skip_ws(t, a - start),
            decreases self.s@.len() - a,
        {
            a += 1;
        }
        if a >= self.s.len() {
            self.pos = self.s.len();
            assert(final(self).rest() =~= Seq::<char>::empty());
            return None;
        }
        let mut b = a;
        while b < self.s.len() && !is_white(self.s[b])
            invariant
                a <= b <= self.s@.len(),
                start <= a,
                start == self.pos,
                t == self.s@.subrange(start, self.s@.len() as int),
                word_end(t, a - start) == word_end(t, b - start),
            decreases self.s@.len() - b,
        {
            assert(t[b - start] == self.s@[b as int]);
            b += 1;
        }
        let word = crate::lexer::take_chars(&self.s, a, b);
        assert(word@ =~= t.subrange(a - start, b - start));
        if b >= self.s.len() {
            self.pos = self.s.len();
            assert(final(self).rest() =~= Seq::<char>::empty());
        } else {
            self.pos = b + 1;
            assert(final(self).rest() =~= t.subrange(b - start + 1, t.len() as int));
        }
        Some(string_of(word.as_slice()))
    }

    /// The characters not handed out yet.
    pub fn remainder(&self) -> (r: String)
        requires
            self.wf(),
        ensures
            r@ == self.rest(),
    {
        let cs = crate::lexer::take_chars(&self.s, self.pos, self.s.len());
        string_of(cs.as_slice())
    }
}

/// The whitespace-separated words of `s` from position `i`.
pub open spec fn words_from(s: Seq<char>, i: int) -> Seq<Seq<char>>
    decreases s.len() - i,
{
    if i < 0 || i >= s.len() {
        Seq::empty()
    } else {
        let a = skip_ws(s, i);
        if a >= s.len() {
            Seq::empty()
        } else {
            let b = word_end(s, a);
            proof {
                lemma_skip_ws(s, i);
                lemma_word_end(s, a);
                lemma_word_end_moves(s, a);
            }
            seq![s.subrange(a, b)] + words_from(s, b)
        }
    }
}

pub proof fn lemma_word_end_moves(s: Seq<char>, a: int)
    requires
        0 <= a < s.len(),
        !white_space(s[a]),
    ensures
        word_end(s, a) > a,
{
    lemma_word_end(s, a + 1);
}

/// The whitespace-separated words of `cs`.
pub fn split_words(cs: &Vec<char>) -> (r: Vec<Vec<char>>)
    ensures
        r@.len() == words_from(cs@, 0).len(),
        forall|j: int| 0 <= j < r@.len() ==> (#[trigger] r@[j])@ == words_from(cs@, 0)[j],
{
    let mut r: Vec<Vec<char>> = Vec::new();
    let mut i: usize = 0;
    let ghost s = cs@;
    let ghost done: Seq<Seq<char>> = Seq::empty();
    while i < cs.len()
        invariant
            i <= cs@.len(),
            s == cs@,
            r@.len() == done.len(),
            forall|j: int| 0 <= j < r@.len() ==> (#[trigger] r@[j])@ == done[j],
            words_from(s, 0) == done + words_from(s, i as int),
        decreases cs@.len() - i,
    {
        let ghost i0 = i as int;
        let mut a = i;
        while a < cs.len() && is_white(cs[a])
            invariant
                i0 <= a <= cs@.len(),
                s == cs@,
                skip_ws(s, i0) == skip_ws(s, a as int),
            decreases cs@.len() - a,
        {
            a += 1;
        }
        if a >= cs.len() {
            i = cs.len();
            assert(words_from(s, i0) =~= Seq::<Seq<char>>::empty());
            assert(done + words_from(s, i as int) =~= done);
            assert(words_from(s, 0) =~= done + words_from(s, i0));
        } else {
            let mut b = a;
            while b < cs.len() && !is_white(cs[b])
                invariant
                    a <= b <= cs@.len(),
                    s == cs@,
                    word_end(s, a as int) == word_end(s, b as int),
                decreases cs@.len() - b,
            {
                b += 1;
            }
            let w = crate::lexer::take_chars(cs, a, b);
            proof {
                lemma_skip_ws(s, i0);
                lemma_word_end_moves(s, a as int);
                done = done.push(w@);
                assert(words_from(s, 0) =~= done + words_from(s, b as int));
            }
            r.push(w);
            i = b;
        }
    }
    assert(done + words_from(s, i as int) =~= done);
    r
}

/// The value of the decimal digits `ds`.
pub open spec fn dec_value(ds: Seq<char>) -> int
    decreases ds.len(),
{
    if ds.len() == 0 {
        0
    } else {
        dec_value(ds.drop_last()) * 10 + (ds.last() as int - '0' as int)
    }
}

pub open spec fn all_digits(ds: Seq<char>) -> bool {
    forall|i: int| 0 <= i < ds.len() ==> crate::text::is_digit(#[trigger] ds[i])
}

/// The digits of a number's text: all of it, or all after one leading `+`.
pub open spec fn digits_part(s: Seq<char>) -> Seq<char> {
    if s.len() > 0 && s[0] == '+' {
        s.drop_first()
    } else {
        s
    }
}

/// Reads an unsigned decimal number: an optional `+`, then one or more
/// digits, with a value that fits in `usize`.
pub fn parse_usize(s: &str) -> (r: Option<usize>)
    ensures
        ({
            let d = digits_part(s@);
            if d.len() > 0 && all_digits(d) && dec_value(d) <= usize::MAX {
                r == Some(dec_value(d) as usize)
            } else {
                r is None
            }
        }),
        r matches Some(n) ==> n as int == dec_value(digits_part(s@)),
{
    let cs = chars_of(s);
    let ghost d = digits_part(s@);
    let start: usize = if cs.len() > 0 && cs[0] == '+' { 1 } else { 0 };
    assert(d =~= cs@.subrange(start as int, cs@.len() as int));
    if start >= cs.len() {
        return None;
    }
    let mut v: usize = 0;
    let mut i = start;
    while i < cs.len()
        invariant
            start <= i <= cs@.len(),
            d == digits_part(s@),
            d == cs@.subrange(start as int, cs@.len() as int),
            all_digits(cs@.subrange(start as int, i as int)),
            v as int == dec_value(cs@.subrange(start as int, i as int)),
        decreases cs@.len() - i,
    {
        let c = cs[i];
        assert(cs@.subrange(start as int, i + 1).drop_last() =~= cs@.subrange(start as int, i as int));
        if !crate::text::is_ascii_digit(c) {
            assert(d[i - start] == c);
            assert(!crate::text::is_digit(d[i - start]));
            assert(!all_digits(d));
            return None;
        }
        let digit = (c as u32 - '0' as u32) as usize;
        assert(digit as int == c as int - '0' as int);
        if v > (usize::MAX - digit) / 10 {
            proof {
                let m = usize::MAX as int;
                let dg = digit as int;
                let vv = v as int;
                assert(vv * 10 + dg > m) by (nonlinear_arith)
                    requires
                        vv > (m - dg) / 10,
                        0 <= dg <= 9,
                        m > 9,
                {
                }
                assert(cs@.subrange(start as int, i + 1) =~= d.subrange(0, i + 1 - start));
                lemma_dec_grows(d, cs@.subrange(start as int, i + 1));
            }
            return None;
        }
        v = v * 10 + digit;
        i += 1;
    }
    assert(cs@.subrange(start as int, cs@.len() as int) =~= d);
    Some(v)
}

/// A number's value is at least that of any prefix of its digits.
pub proof fn lemma_dec_grows(d: Seq<char>, p: Seq<char>)
    requires
        p.len() <= d.len(),
        p == d.subrange(0, p.len() as int),
        all_digits(d) || !all_digits(d),
    ensures
        all_digits(d) ==> dec_value(p) <= dec_value(d),
    decreases d.len(),
{
    if p.len() == d.len() {
        assert(p =~= d);
    } else if all_digits(d) {
        assert(d.drop_last().subrange(0, p.len() as int) =~= p);
        assert forall|i: int| 0 <= i < d.drop_last().len() implies crate::text::is_digit(#[trigger] d.drop_last()[i]) by {
            assert(d.drop_last()[i] == d[i]);
        }
        lemma_dec_grows(d.drop_last(), p);
        lemma_dec_nonneg(d.drop_last());
        let x = dec_value(d.drop_last());
        let dg = d.last() as int - '0' as int;
        assert(crate::text::is_digit(d[d.len() - 1]));
        assert(x * 10 + dg >= x) by (nonlinear_arith)
            requires
                x >= 0,
                dg >= 0,
        {
        }
    }
}

pub proof fn lemma_dec_nonneg(d: Seq<char>)
    requires
        all_digits(d),
    ensures
        dec_value(d) >= 0,
    decreases d.len(),
{
    if d.len() > 0 {
        assert forall|i: int| 0 <= i < d.drop_last().len() implies crate::text::is_digit(#[trigger] d.drop_last()[i]) by {
            assert(d.drop_last()[i] == d[i]);
        }
        lemma_dec_nonneg(d.drop_last());
        assert(crate::text::is_digit(d[d.len() - 1]));
    }
}

} // verus!
