//! The longest-match lexer. Four classifiers (numeric literal, identifier,
//! declared operator, bracket) watch the same growing buffer; once none of
//! them can grow, the longest finished match becomes a token and the rest
//! of the buffer is lexed again.
use vstd::prelude::*;
use crate::sym::{SymData, SymDB, Sym, sym_view, lookup};
use crate::text::{is_ascii_digit, is_digit, is_xid_start, is_xid_continue, xid_start, xid_continue,
    is_white, white_space, chars_of, string_of};

verus! {

/// A token of the input.
pub enum Token {
    Literal(String),
    Ident(String),
    Op(SymData),
    PrthL,
    PrthR,
}

/// The abstract value of a token.
pub enum Tok {
    Literal(Seq<char>),
    Ident(Seq<char>),
    Op(Sym),
    PrthL,
    PrthR,
}

impl Token {
    pub open spec fn view(&self) -> Tok {
        match self {
            Token::Literal(s) => Tok::Literal(s@),
            Token::Ident(s) => Tok::Ident(s@),
            Token::Op(s) => Tok::Op(sym_view(*s)),
            Token::PrthL => Tok::PrthL,
            Token::PrthR => Tok::PrthR,
        }
    }
}

pub open spec fn toks(ts: Seq<Token>) -> Seq<Tok> {
    ts.map_values(|t: Token| t.view())
}

/// The state of one classifier, or of the whole lexer.
#[derive(Debug, PartialEq, Eq, Clone, Copy, Structural)]
pub enum MatchState {
    Growable,
    Finished,
    Failure,
}

/// The number of digits in a row in `b` from position `i`.
pub open spec fn digits_from(b: Seq<char>, i: int) -> nat
    decreases b.len() - i,
{
    if 0 <= i < b.len() && is_digit(b[i]) {
        1 + digits_from(b, i + 1)
    } else {
        0
    }
}

/// The number of identifier-continuing characters in a row in `b` from position `i`.
pub open spec fn cont_from(b: Seq<char>, i: int) -> nat
    decreases b.len() - i,
{
    if 0 <= i < b.len() && xid_continue(b[i]) {
        1 + cont_from(b, i + 1)
    } else {
        0
    }
}

pub open spec fn id_start(c: char) -> bool {
    xid_start(c) || c == '_' || c == '@'
}

/// The numeric-literal classifier on buffer `b`: its state and the end of its match.
pub open spec fn lit_state(b: Seq<char>) -> (MatchState, nat) {
    let k = digits_from(b, 0);
    if k == b.len() {
        (MatchState::Growable, 0)
    } else if k == 0 {
        (MatchState::Failure, 0)
    } else {
        (MatchState::Finished, k)
    }
}

/// The identifier classifier on buffer `b`.
pub open spec fn idt_state(b: Seq<char>) -> (MatchState, nat) {
    if b.len() == 0 {
        (MatchState::Growable, 0)
    } else if !id_start(b[0]) {
        (MatchState::Failure, 0)
    } else if 1 + cont_from(b, 1) == b.len() {
        (MatchState::Growable, 0)
    } else {
        (MatchState::Finished, 1 + cont_from(b, 1))
    }
}

/// The bracket classifier on buffer `b`.
pub open spec fn ctn_state(b: Seq<char>) -> (MatchState, nat) {
    if b.len() == 0 {
        (MatchState::Growable, 0)
    } else if b[0] == '(' || b[0] == ')' {
        (MatchState::Finished, 1)
    } else {
        (MatchState::Failure, 0)
    }
}

/// Whether `p` is a prefix of `s`.
pub open spec fn is_prefix(p: Seq<char>, s: Seq<char>) -> bool {
    p.len() <= s.len() && s.subrange(0, p.len() as int) == p
}

/// Whether some declared name among the first `n` extends `b` beyond its end.
pub open spec fn kwd_grows(syms: Seq<SymData>, b: Seq<char>, n: int) -> bool {
    exists|i: int| 0 <= i < n && b.len() < syms[i].name@.len() && is_prefix(b, #[trigger] syms[i].name@)
}

/// The length of the longest non-empty declared name among the first `n` that starts `b`; 0 if none.
pub open spec fn kwd_best(syms: Seq<SymData>, b: Seq<char>, n: int) -> nat
    decreases n,
{
    if n <= 0 {
        0
    } else {
        let rest = kwd_best(syms, b, n - 1);
        let name = syms[n - 1].name@;
        if name.len() > 0 && is_prefix(name, b) && name.len() > rest {
            name.len()
        } else {
            rest
        }
    }
}

/// The declared-operator classifier on buffer `b`.
pub open spec fn kwd_state(syms: Seq<SymData>, b: Seq<char>) -> (MatchState, nat) {
    if kwd_grows(syms, b, syms.len() as int) {
        (MatchState::Growable, 0)
    } else if kwd_best(syms, b, syms.len() as int) == 0 {
        (MatchState::Failure, 0)
    } else {
        (MatchState::Finished, kwd_best(syms, b, syms.len() as int))
    }
}

pub open spec fn any_growable(syms: Seq<SymData>, b: Seq<char>) -> bool {
    lit_state(b).0 == MatchState::Growable || idt_state(b).0 == MatchState::Growable
        || kwd_state(syms, b).0 == MatchState::Growable || ctn_state(b).0 == MatchState::Growable
}

/// The longest end that a classifier reached on `b`.
pub open spec fn longest(syms: Seq<SymData>, b: Seq<char>) -> nat {
    let a = lit_state(b).1;
    let i = idt_state(b).1;
    let k = kwd_state(syms, b).1;
    let c = ctn_state(b).1;
    let m1 = if a >= i { a } else { i };
    let m2 = if m1 >= k { m1 } else { k };
    if m2 >= c { m2 } else { c }
}

/// The token that the buffer `b` commits, of length `longest`: ties go to the
/// literal, then the identifier, then the operator, then the bracket.
pub open spec fn committed(syms: Seq<SymData>, b: Seq<char>) -> Tok {
    let l = longest(syms, b);
    let w = b.subrange(0, l as int);
    if lit_state(b).1 == l {
        Tok::Literal(w)
    } else if idt_state(b).1 == l {
        Tok::Ident(w)
    } else if kwd_state(syms, b).1 == l {
        Tok::Op(lookup(syms, w))
    } else if b[0] == '(' {
        Tok::PrthL
    } else {
        Tok::PrthR
    }
}

/// The lexer's abstract state: committed tokens, the buffer, and whether it failed.
pub struct LexState {
    pub toks: Seq<Tok>,
    pub buf: Seq<char>,
    pub failed: bool,
}

/// Feeds the characters `cs` to a lexer that has not failed.
pub open spec fn run(syms: Seq<SymData>, ts: Seq<Tok>, buf: Seq<char>, cs: Seq<char>) -> LexState
    decreases buf.len() + cs.len(), cs.len(),
{
    if cs.len() == 0 {
        LexState { toks: ts, buf, failed: false }
    } else {
        let c = cs[0];
        let rest = cs.drop_first();
        if white_space(c) && buf.len() == 0 {
            run(syms, ts, buf, rest)
        } else {
            let b = buf.push(c);
            let l = longest(syms, b);
            if any_growable(syms, b) {
                run(syms, ts, b, rest)
            } else if 0 < l <= b.len() {
                run(syms, ts.push(committed(syms, b)), Seq::empty(), b.subrange(l as int, b.len() as int) + rest)
            } else {
                LexState { toks: ts, buf: b + rest, failed: true }
            }
        }
    }
}

/// Feeds the characters `cs` to a lexer in state `st`; a failed lexer only keeps them.
pub open spec fn feed(syms: Seq<SymData>, st: LexState, cs: Seq<char>) -> LexState {
    if st.failed {
        LexState { buf: st.buf + cs, ..st }
    } else {
        run(syms, st.toks, st.buf, cs)
    }
}

/// The characters of `b` from `from` up to `to`.
pub fn take_chars(b: &Vec<char>, from: usize, to: usize) -> (r: Vec<char>)
    requires
        from <= to <= b@.len(),
    ensures
        r@ == b@.subrange(from as int, to as int),
{
    let mut r: Vec<char> = Vec::new();
    let mut i = from;
    while i < to
        invariant
            from <= i <= to,
            to <= b@.len(),
            r@ == b@.subrange(from as int, i as int),
        decreases to - i,
    {
        r.push(b[i]);
        assert(r@ =~= b@.subrange(from as int, i + 1));
        i += 1;
    }
    r
}

/// Whether `p` is a prefix of `s`.
pub fn starts_with(p: &Vec<char>, s: &Vec<char>) -> (r: bool)
    ensures
        r == is_prefix(p@, s@),
{
    if p.len() > s.len() {
        return false;
    }
    let mut i: usize = 0;
    while i < p.len()
        invariant
            p@.len() <= s@.len(),
            i <= p@.len(),
            forall|j: int| 0 <= j < i ==> s@[j] == p@[j],
        decreases p@.len() - i,
    {
        if p[i] != s[i] {
            assert(s@.subrange(0, p@.len() as int)[i as int] != p@[i as int]);
            return false;
        }
        i += 1;
    }
    assert(s@.subrange(0, p@.len() as int) =~= p@);
    true
}

/// The numeric-literal classifier on `b`.
fn lit_scan(b: &Vec<char>) -> (r: (MatchState, usize))
    ensures
        r.0 == lit_state(b@).0,
        r.1 == lit_state(b@).1,
{
    let mut i: usize = 0;
    while i < b.len() && is_ascii_digit(b[i])
        invariant
            i <= b@.len(),
            digits_from(b@, 0) == i + digits_from(b@, i as int),
        decreases b@.len() - i,
    {
        i += 1;
    }
    if i == b.len() {
        (MatchState::Growable, 0)
    } else if i == 0 {
        (MatchState::Failure, 0)
    } else {
        (MatchState::Finished, i)
    }
}

/// The identifier classifier on `b`.
fn idt_scan(b: &Vec<char>) -> (r: (MatchState, usize))
    ensures
        r.0 == idt_state(b@).0,
        r.1 == idt_state(b@).1,
{
    if b.len() == 0 {
        return (MatchState::Growable, 0);
    }
    let c = b[0];
    if !(is_xid_start(c) || c == '_' || c == '@') {
        return (MatchState::Failure, 0);
    }
    let mut i: usize = 1;
    while i < b.len() && is_xid_continue(b[i])
        invariant
            1 <= i <= b@.len(),
            1 + cont_from(b@, 1) == i + cont_from(b@, i as int),
        decreases b@.len() - i,
    {
        i += 1;
    }
    if i == b.len() {
        (MatchState::Growable, 0)
    } else {
        (MatchState::Finished, i)
    }
}

/// The bracket classifier on `b`.
fn ctn_scan(b: &Vec<char>) -> (r: (MatchState, usize))
    ensures
        r.0 == ctn_state(b@).0,
        r.1 == ctn_state(b@).1,
{
    if b.len() == 0 {
        (MatchState::Growable, 0)
    } else if b[0] == '(' || b[0] == ')' {
        (MatchState::Finished, 1)
    } else {
        (MatchState::Failure, 0)
    }
}

/// The declared-operator classifier on `b`.
fn kwd_scan(db: &SymDB, b: &Vec<char>) -> (r: (MatchState, usize))
    ensures
        r.0 == kwd_state(db.syms(), b@).0,
        r.1 == kwd_state(db.syms(), b@).1,
{
    let mut grows = false;
    let mut best: usize = 0;
    let mut it = db.iter_names();
    let ghost syms = db.syms();
    let mut i: usize = 0;
    while i < db.len()
        invariant
            i <= syms.len(),
            syms == db.syms(),
            it.rest() == syms.subrange(i as int, syms.len() as int),
            grows == kwd_grows(syms, b@, i as int),
            best == kwd_best(syms, b@, i as int),
            best <= b@.len(),
        decreases syms.len() - i,
    {
        let name = match it.next() {
            Some(n) => n,
            None => "",
        };
        assert(syms.subrange(i as int, syms.len() as int)[0] == syms[i as int]);
        assert(it.rest() =~= syms.subrange(i + 1, syms.len() as int));
        let cs = chars_of(name);
        if b.len() < cs.len() && starts_with(b, &cs) {
            grows = true;
        }
        if cs.len() > 0 && starts_with(&cs, b) && cs.len() > best {
            best = cs.len();
        }
        proof {
            if grows && !kwd_grows(syms, b@, i as int) {
                assert(b@.len() < syms[i as int].name@.len() && is_prefix(b@, syms[i as int].name@));
            }
            if kwd_grows(syms, b@, i + 1) && !kwd_grows(syms, b@, i as int) {
                let j = choose|j: int| 0 <= j < i + 1 && b@.len() < syms[j].name@.len() && is_prefix(b@, #[trigger] syms[j].name@);
                assert(j == i);
            }
        }
        i += 1;
    }
    if grows {
        (MatchState::Growable, 0)
    } else if best == 0 {
        (MatchState::Failure, 0)
    } else {
        (MatchState::Finished, best)
    }
}

/// The streaming lexer: a buffer of characters not yet committed, the
/// committed tokens, and the operator table that drives it.
pub struct Lexer {
    pub(crate) s: Vec<char>,
    pub(crate) buf_state: MatchState,
    pub(crate) tokens: Vec<Token>,
    pub kwds: SymDB,
}

impl Lexer {
    /// The operator table.
    pub open(crate) spec fn table(&self) -> SymDB {
        self.kwds
    }

    /// The abstract state of the lexer.
    pub open(crate) spec fn state(&self) -> LexState {
        LexState { toks: toks(self.tokens@), buf: self.s@, failed: self.buf_state == MatchState::Failure }
    }

    pub fn new(syms: SymDB) -> (r: Self)
        ensures
            r.state() == (LexState { toks: Seq::empty(), buf: Seq::empty(), failed: false }),
            r.table() == syms,
    {
        let r = Lexer { s: Vec::new(), buf_state: MatchState::Growable, tokens: Vec::new(), kwds: syms };
        assert(toks(r.tokens@) =~= Seq::empty());
        r
    }

    /// Empties the buffer and forgets a failure; committed tokens stay.
    pub fn clear(&mut self)
        ensures
            final(self).state() == (LexState { toks: old(self).state().toks, buf: Seq::empty(), failed: false }),
            final(self).table() == old(self).table(),
    {
        self.s = Vec::new();
        self.buf_state = MatchState::Growable;
    }

    /// Feeds the characters of `s`; reports `Failure` when the lexer has failed.
    pub fn push_str(&mut self, s: &str) -> (r: MatchState)
        ensures
            final(self).state() == feed(old(self).table().syms(), old(self).state(), s@),
            final(self).table() == old(self).table(),
            r == (if final(self).state().failed { MatchState::Failure } else { MatchState::Growable }),
    {
        let mut work = chars_of(s);
        if self.buf_state == MatchState::Failure {
            let mut i: usize = 0;
            let ghost s0 = self.s@;
            while i < work.len()
                invariant
                    i <= work@.len(),
                    self.s@ == s0 + work@.subrange(0, i as int),
                    self.buf_state == MatchState::Failure,
                    self.tokens == old(self).tokens,
                    self.kwds == old(self).kwds,
                decreases work@.len() - i,
            {
                self.s.push(work[i]);
                assert(s0 + work@.subrange(0, i + 1) =~= (s0 + work@.subrange(0, i as int)).push(work@[i as int]));
                i += 1;
            }
            assert(work@.subrange(0, work@.len() as int) =~= work@);
            return MatchState::Failure;
        }
        let ghost syms = self.kwds.syms();
        let ghost goal = run(syms, toks(self.tokens@), self.s@, s@);
        loop
            invariant
                syms == self.kwds.syms(),
                self.kwds == old(self).kwds,
                self.buf_state != MatchState::Failure,
                goal == run(syms, toks(self.tokens@), self.s@, work@),
                goal == feed(syms, old(self).state(), s@),
            decreases self.s@.len() + work@.len(), work@.len(),
        {
            if work.len() == 0 {
                return MatchState::Growable;
            }
            let c = work.remove(0);
            let ghost cs = seq![c] + work@;
            assert(cs.drop_first() =~= work@);
            assert(cs[0] == c);
            if is_white(c) && self.s.len() == 0 {
                continue;
            }
            self.s.push(c);
            let lit = lit_scan(&self.s);
            let idt = idt_scan(&self.s);
            let kwd = kwd_scan(&self.kwds, &self.s);
            let ctn = ctn_scan(&self.s);
            if lit.0 == MatchState::Growable || idt.0 == MatchState::Growable || kwd.0 == MatchState::Growable
                || ctn.0 == MatchState::Growable {
                continue;
            }
            let m1 = if lit.1 >= idt.1 { lit.1 } else { idt.1 };
            let m2 = if m1 >= kwd.1 { m1 } else { kwd.1 };
            let l = if m2 >= ctn.1 { m2 } else { ctn.1 };
            if 0 < l && l <= self.s.len() {
                let word = take_chars(&self.s, 0, l);
                let token = if lit.1 == l {
                    Token::Literal(string_of(word.as_slice()))
                } else if idt.1 == l {
                    Token::Ident(string_of(word.as_slice()))
                } else if kwd.1 == l {
                    let name = string_of(word.as_slice());
                    Token::Op(self.kwds.get(name.as_str()))
                } else if self.s[0] == '(' {
                    Token::PrthL
                } else {
                    Token::PrthR
                };
                let mut rest = take_chars(&self.s, l, self.s.len());
                let ghost b = self.s@;
                let ghost ts0 = self.tokens@;
                assert(token.view() == committed(syms, b));
                rest.append(&mut work);
                work = rest;
                self.s = Vec::new();
                self.tokens.push(token);
                assert(toks(self.tokens@) =~= toks(ts0).push(committed(syms, b)));
                assert(work@ =~= b.subrange(l as int, b.len() as int) + cs.drop_first());
            } else {
                let ghost b = self.s@;
                self.s.append(&mut work);
                assert(self.s@ =~= b + cs.drop_first());
                self.buf_state = MatchState::Failure;
                return MatchState::Failure;
            }
        }
    }

    /// Feeds the character `c`.
    pub fn push(&mut self, c: char) -> (r: MatchState)
        ensures
            final(self).state() == feed(old(self).table().syms(), old(self).state(), seq![c]),
            final(self).table() == old(self).table(),
            r == (if final(self).state().failed { MatchState::Failure } else { MatchState::Growable }),
    {
        let mut t = String::new();
        crate::text::push_char(&mut t, c);
        assert(t@ =~= seq![c]);
        self.push_str(t.as_str())
    }

    /// Feeds a space, which ends any pending match.
    pub fn delimit(&mut self) -> (r: MatchState)
        ensures
            final(self).state() == feed(old(self).table().syms(), old(self).state(), seq![' ']),
            final(self).table() == old(self).table(),
            r == (if final(self).state().failed { MatchState::Failure } else { MatchState::Growable }),
    {
        self.push(' ')
    }

    /// Takes the first committed token, if any.
    pub fn recv_token(&mut self) -> (r: Option<Token>)
        ensures
            old(self).state().toks.len() == 0 ==> r is None && final(self).state() == old(self).state(),
            old(self).state().toks.len() > 0 ==> r is Some && r->Some_0.view() == old(self).state().toks[0]
                && final(self).state() == (LexState { toks: old(self).state().toks.drop_first(), ..old(self).state() }),
            final(self).table() == old(self).table(),
    {
        if self.tokens.len() == 0 {
            None
        } else {
            let t = self.tokens.remove(0);
            assert(toks(self.tokens@) =~= toks(old(self).tokens@).drop_first());
            Some(t)
        }
    }

    /// Takes all committed tokens, in order.
    pub fn recv_tokens(&mut self) -> (r: Vec<Token>)
        ensures
            toks(r@) == old(self).state().toks,
            final(self).state() == (LexState { toks: Seq::empty(), ..old(self).state() }),
            final(self).table() == old(self).table(),
    {
        let mut r = Vec::new();
        r.append(&mut self.tokens);
        assert(toks(self.tokens@) =~= Seq::empty());
        r
    }
}

} // verus!
