//! Splitting text at the boundaries between character classes, and the
//! tidy spacing of such tokens.
use vstd::prelude::*;
use crate::text::{chars_of, string_of, is_white, white_space, is_xid_continue, xid_continue, push_char, push_all};
use crate::util::skip_ws;

verus! {

/// The class of a character.
#[derive(PartialEq, Eq, Clone, Copy, Debug, Structural)]
pub enum CharClass {
    Whitespace,
    Punct,
    Ident,
    BracketL,
    BracketR,
}

/// The class of a token.
#[derive(PartialEq, Eq, Clone, Copy, Debug, Structural)]
pub enum TokenClass {
    Punct,
    Ident,
    BracketL,
    BracketR,
}

pub open spec fn bracket_l(c: char) -> bool {
    c == '(' || c == '{' || c == '['
}

pub open spec fn bracket_r(c: char) -> bool {
    c == ')' || c == '}' || c == ']'
}

pub open spec fn class_of(c: char) -> CharClass {
    if white_space(c) {
        CharClass::Whitespace
    } else if bracket_l(c) {
        CharClass::BracketL
    } else if bracket_r(c) {
        CharClass::BracketR
    } else if xid_continue(c) {
        CharClass::Ident
    } else {
        CharClass::Punct
    }
}

pub open spec fn token_class(c: CharClass) -> TokenClass {
    match c {
        CharClass::BracketL => TokenClass::BracketL,
        CharClass::BracketR => TokenClass::BracketR,
        CharClass::Ident => TokenClass::Ident,
        _ => TokenClass::Punct,
    }
}

fn class(c: char) -> (r: CharClass)
    ensures
        r == class_of(c),
{
    if is_white(c) {
        CharClass::Whitespace
    } else if c == '(' || c == '{' || c == '[' {
        CharClass::BracketL
    } else if c == ')' || c == '}' || c == ']' {
        CharClass::BracketR
    } else if is_xid_continue(c) {
        CharClass::Ident
    } else {
        CharClass::Punct
    }
}

/// The first character of `s`, if any.
pub fn first_char(s: &str) -> (r: Option<char>)
    ensures
        s@.len() == 0 ==> r is None,
        s@.len() > 0 ==> r == Some(s@[0]),
{
    if s.unicode_len() == 0 {
        None
    } else {
        Some(s.get_char(0))
    }
}

pub fn cond_ws(c: char) -> (r: bool)
    ensures
        r == white_space(c),
{
    is_white(c)
}

pub fn is_ws(c: char) -> (r: bool)
    ensures
        r == (class_of(c) == CharClass::Whitespace),
{
    class(c) == CharClass::Whitespace
}

pub fn is_not_ws(c: char) -> (r: bool)
    ensures
        r == (class_of(c) != CharClass::Whitespace),
{
    class(c) != CharClass::Whitespace
}

pub fn is_bracket_l(c: char) -> (r: bool)
    ensures
        r == (class_of(c) == CharClass::BracketL),
{
    class(c) == CharClass::BracketL
}

pub fn is_bracket_r(c: char) -> (r: bool)
    ensures
        r == (class_of(c) == CharClass::BracketR),
{
    class(c) == CharClass::BracketR
}

pub fn is_bracket(c: char) -> (r: bool)
    ensures
        r == (class_of(c) == CharClass::BracketL || class_of(c) == CharClass::BracketR),
{
    is_bracket_l(c) || is_bracket_r(c)
}

pub fn is_normal(c: char) -> (r: bool)
    ensures
        r == (class_of(c) == CharClass::Ident),
{
    class(c) == CharClass::Ident
}

pub fn is_punctuation(c: char) -> (r: bool)
    ensures
        r == (class_of(c) == CharClass::Punct),
{
    class(c) == CharClass::Punct
}

/// Which of the pairs `()`, `{}`, `[]` the character belongs to, if any.
pub open spec fn bracket_pair(c: char) -> Option<int> {
    if c == '(' || c == ')' {
        Some(0)
    } else if c == '{' || c == '}' {
        Some(1)
    } else if c == '[' || c == ']' {
        Some(2)
    } else {
        None
    }
}

/// Whether `c1` and `c2` are brackets of the same pair; false if either is no bracket.
pub fn same_bracket(c1: char, c2: char) -> (r: bool)
    ensures
        r == (bracket_pair(c1) is Some && bracket_pair(c1) == bracket_pair(c2)),
{
    let pair_a: i32 = if c1 == '(' || c1 == ')' { 0 } else if c1 == '{' || c1 == '}' { 1 } else if c1 == '[' || c1 == ']' { 2 } else { -1 };
    let pair_b: i32 = if c2 == '(' || c2 == ')' { 0 } else if c2 == '{' || c2 == '}' { 1 } else if c2 == '[' || c2 == ']' { 2 } else { -1 };
    pair_a >= 0 && pair_a == pair_b
}

/// The class of the token that starts `s`; none for an empty or blank start.
pub fn token_class_of(s: &str) -> (r: Option<TokenClass>)
    ensures
        s@.len() == 0 ==> r is None,
        s@.len() > 0 ==> (if class_of(s@[0]) == CharClass::Whitespace {
            r is None
        } else {
            r == Some(token_class(class_of(s@[0])))
        }),
{
    let c0 = match first_char(s) {
        Some(c) => c,
        None => {
            return None;
        },
    };
    match class(c0) {
        CharClass::Whitespace => None,
        CharClass::Punct => Some(TokenClass::Punct),
        CharClass::Ident => Some(TokenClass::Ident),
        CharClass::BracketL => Some(TokenClass::BracketL),
        CharClass::BracketR => Some(TokenClass::BracketR),
    }
}

/// The first position at or after `i` whose character is not of class `k`.
pub open spec fn run_end(s: Seq<char>, i: int, k: CharClass) -> int
    decreases s.len() - i,
{
    if 0 <= i < s.len() && class_of(s[i]) == k {
        run_end(s, i + 1, k)
    } else {
        i
    }
}

pub proof fn lemma_run_end(s: Seq<char>, i: int, k: CharClass)
    requires
        0 <= i <= s.len(),
    ensures
        i <= run_end(s, i, k) <= s.len(),
    decreases s.len() - i,
{
    if i < s.len() && class_of(s[i]) == k {
        lemma_run_end(s, i + 1, k);
    }
}

/// Where the token starting at `a` ends: one character for a bracket, else
/// the run of characters of the same class.
pub open spec fn token_end(s: Seq<char>, a: int) -> int {
    let k = class_of(s[a]);
    if k == CharClass::BracketL || k == CharClass::BracketR {
        a + 1
    } else {
        run_end(s, a, k)
    }
}

/// The tokens of `s` from position `i`, with their classes.
pub open spec fn tokens_from(s: Seq<char>, i: int) -> Seq<(Seq<char>, TokenClass)>
    decreases s.len() - i,
{
    if i < 0 || i >= s.len() {
        Seq::empty()
    } else {
        let a = skip_ws(s, i);
        if a >= s.len() {
            Seq::empty()
        } else {
            let b = token_end(s, a);
            proof {
                crate::util::lemma_skip_ws(s, i);
                lemma_run_end(s, a, class_of(s[a]));
                if !(class_of(s[a]) == CharClass::BracketL || class_of(s[a]) == CharClass::BracketR) {
                    lemma_run_end(s, a + 1, class_of(s[a]));
                }
            }
            if b <= a || b > s.len() {
                Seq::empty()
            } else {
                seq![(s.subrange(a, b), token_class(class_of(s[a])))] + tokens_from(s, b)
            }
        }
    }
}

/// The token starting at or after `i`, its class and its end; none when only blanks remain.
fn next_token(s: &Vec<char>, i: usize) -> (r: Option<(Vec<char>, TokenClass, usize)>)
    requires
        i <= s@.len(),
    ensures
        match r {
            None => tokens_from(s@, i as int).len() == 0,
            Some((w, k, e)) => {
                let ts = tokens_from(s@, i as int);
                &&& ts.len() > 0
                &&& ts[0] == (w@, k)
                &&& w@.len() > 0
                &&& i < e <= s@.len()
                &&& ts.drop_first() == tokens_from(s@, e as int)
            },
        },
{
    let mut a = i;
    while a < s.len() && is_white(s[a])
        invariant
            i <= a <= s@.len(),
            skip_ws(s@, i as int) == skip_ws(s@, a as int),
        decreases s@.len() - a,
    {
        a += 1;
    }
    if a >= s.len() {
        return None;
    }
    proof {
        crate::util::lemma_skip_ws(s@, i as int);
    }
    let k = class(s[a]);
    let b = if k == CharClass::BracketL || k == CharClass::BracketR {
        a + 1
    } else {
        let mut b = a + 1;
        while b < s.len() && class(s[b]) == k
            invariant
                a < b <= s@.len(),
                k == class_of(s@[a as int]),
                run_end(s@, a as int, k) == run_end(s@, b as int, k),
            decreases s@.len() - b,
        {
            b += 1;
        }
        b
    };
    proof {
        lemma_run_end(s@, a as int, k);
        let ts = tokens_from(s@, i as int);
        assert(ts == seq![(s@.subrange(a as int, b as int), token_class(k))] + tokens_from(s@, b as int));
        assert(ts.drop_first() =~= tokens_from(s@, b as int));
    }
    let w = crate::lexer::take_chars(s, a, b);
    let tk = match k {
        CharClass::BracketL => TokenClass::BracketL,
        CharClass::BracketR => TokenClass::BracketR,
        CharClass::Ident => TokenClass::Ident,
        _ => TokenClass::Punct,
    };
    Some((w, tk, b))
}

/// Hands out the tokens of a text one at a time.
pub struct IterToken {
    s: Vec<char>,
    pos: usize,
}

impl IterToken {
    /// The tokens not handed out yet.
    pub closed spec fn rest(&self) -> Seq<(Seq<char>, TokenClass)> {
        tokens_from(self.s@, self.pos as int)
    }

    pub closed spec fn wf(&self) -> bool {
        self.pos <= self.s@.len()
    }

    pub fn new(s: &str) -> (r: Self)
        ensures
            r.wf(),
            r.rest() == tokens_from(s@, 0),
    {
        IterToken { s: chars_of(s), pos: 0 }
    }

    pub fn next(&mut self) -> (r: Option<String>)
        requires
            old(self).wf(),
        ensures
            final(self).wf(),
            old(self).rest().len() == 0 ==> r is None,
            old(self).rest().len() > 0 ==> r is Some && r->Some_0@ == old(self).rest()[0].0
                && final(self).rest() == old(self).rest().drop_first(),
    {
        match next_token(&self.s, self.pos) {
            None => None,
            Some((w, _, e)) => {
                self.pos = e;
                Some(string_of(w.as_slice()))
            },
        }
    }
}

/// Whether a space goes between a token of class `p` (text `pt`) and the
/// next token, of class `k` (text `kt`).
pub open spec fn need_ws(p: TokenClass, pt: Seq<char>, k: TokenClass, kt: Seq<char>) -> bool {
    match p {
        TokenClass::BracketL => match k {
            TokenClass::BracketR => !(bracket_pair(pt[0]) is Some && bracket_pair(pt[0]) == bracket_pair(kt[0])),
            _ => false,
        },
        _ => match k {
            TokenClass::BracketR => false,
            _ => true,
        },
    }
}

/// The tokens `ts[i..]` joined, each preceded by a space where `need_ws` asks for one.
pub open spec fn tidy_from(ts: Seq<(Seq<char>, TokenClass)>, i: int) -> Seq<char>
    decreases ts.len() - i,
{
    if i <= 0 || i >= ts.len() {
        Seq::empty()
    } else {
        (if need_ws(ts[i - 1].1, ts[i - 1].0, ts[i].1, ts[i].0) { seq![' '] } else { Seq::empty() }) + ts[i].0
            + tidy_from(ts, i + 1)
    }
}

/// The tokens of `s` rejoined with tidy spacing.
pub open spec fn tidy(s: Seq<char>) -> Seq<char> {
    let ts = tokens_from(s, 0);
    if ts.len() == 0 {
        Seq::empty()
    } else {
        ts[0].0 + tidy_from(ts, 1)
    }
}

/// Rewrites `s` with one space between tokens, except after an opening
/// bracket, before a closing one, and inside an empty matching pair.
pub fn cleanup(s: &str) -> (r: String)
    ensures
        r@ == tidy(s@),
{
    let cs = chars_of(s);
    let mut res = String::new();
    let ghost ts = tokens_from(cs@, 0);
    let (mut prev, mut prev_cls, mut pos) = match next_token(&cs, 0) {
        None => {
            return res;
        },
        Some(t) => t,
    };
    push_all(&mut res, string_of(prev.as_slice()).as_str());
    let ghost n: int = 1;
    proof {
        assert(ts.drop_first() == tokens_from(cs@, pos as int));
    }
    loop
        invariant
            cs@ == s@,
            ts == tokens_from(cs@, 0),
            1 <= n <= ts.len(),
            pos <= cs@.len(),
            ts.subrange(n, ts.len() as int) == tokens_from(cs@, pos as int),
            ts[n - 1] == (prev@, prev_cls),
            prev@.len() > 0,
            res@ + tidy_from(ts, n) == tidy(s@),
        decreases cs@.len() - pos,
    {
        let ghost old_pos = pos;
        match next_token(&cs, pos) {
            None => {
                assert(n == ts.len()) by {
                    assert(ts.subrange(n, ts.len() as int).len() == 0);
                }
                assert(res@ + Seq::<char>::empty() =~= res@);
                return res;
            },
            Some((tk, tk_cls, e)) => {
                assert(ts[n] == ts.subrange(n, ts.len() as int)[0]);
                let need = match prev_cls {
                    TokenClass::BracketL => match tk_cls {
                        TokenClass::BracketR => !same_bracket(prev[0], tk[0]),
                        _ => false,
                    },
                    _ => match tk_cls {
                        TokenClass::BracketR => false,
                        _ => true,
                    },
                };
                let ghost before = res@;
                if need {
                    push_char(&mut res, ' ');
                }
                push_all(&mut res, string_of(tk.as_slice()).as_str());
                proof {
                    assert(tk@.len() > 0);
                    let sp: Seq<char> = if need { seq![' '] } else { Seq::empty() };
                    assert(res@ =~= before + sp + tk@);
                    assert(tidy_from(ts, n) == sp + ts[n].0 + tidy_from(ts, n + 1));
                    assert(before + (sp + tk@ + tidy_from(ts, n + 1)) =~= res@ + tidy_from(ts, n + 1));
                    assert(ts.subrange(n + 1, ts.len() as int) =~= ts.subrange(n, ts.len() as int).drop_first());
                    n = n + 1;
                }
                prev = tk;
                prev_cls = tk_cls;
                pos = e;
            },
        }
    }
}

} // verus!
