//! Text to term: the lexer feeds the builder. Also the pattern matcher that
//! binds `@name` captures and skips `_` wildcards.
use vstd::prelude::*;
use crate::ast::{AstGen, BuildError, build};
use crate::lexer::{Lexer, LexState, MatchState, feed, toks};
use crate::sym::{SymDB, SymData};
use crate::tree::{Term, Tree, Subtree, subtree_eq};

verus! {

/// A map from capture names to the subterms they matched.
pub open spec fn entries_map(es: Seq<(String, Tree<String>)>) -> Map<Seq<char>, Term<Seq<char>>>
    decreases es.len(),
{
    if es.len() == 0 {
        Map::empty()
    } else {
        entries_map(es.drop_last()).insert(es.last().0@, es.last().1.view_term())
    }
}

/// The bindings of one match: each capture name with an owned copy of what it matched.
pub struct Bindings {
    entries: Vec<(String, Tree<String>)>,
}

impl Bindings {
    pub closed spec fn view(&self) -> Map<Seq<char>, Term<Seq<char>>> {
        entries_map(self.entries@)
    }

    pub closed spec fn wf(&self) -> bool {
        &&& forall|i: int| 0 <= i < self.entries@.len() ==> (#[trigger] self.entries@[i]).1.wf()
        &&& forall|i: int, j: int| 0 <= i < j < self.entries@.len() ==> self.entries@[i].0@ != self.entries@[j].0@
    }

    pub fn new() -> (r: Self)
        ensures
            r.wf(),
            r.view() == Map::<Seq<char>, Term<Seq<char>>>::empty(),
    {
        Bindings { entries: Vec::new() }
    }

    proof fn lemma_map(es: Seq<(String, Tree<String>)>, k: Seq<char>)
        ensures
            entries_map(es).contains_key(k) <==> exists|i: int| 0 <= i < es.len() && (#[trigger] es[i]).0@ == k,
        decreases es.len(),
    {
        if es.len() > 0 {
            Self::lemma_map(es.drop_last(), k);
            if exists|i: int| 0 <= i < es.len() && (#[trigger] es[i]).0@ == k {
                let i = choose|i: int| 0 <= i < es.len() && (#[trigger] es[i]).0@ == k;
                if i < es.len() - 1 {
                    assert(es.drop_last()[i] == es[i]);
                }
            }
            if exists|i: int| 0 <= i < es.drop_last().len() && (#[trigger] es.drop_last()[i]).0@ == k {
                let i = choose|i: int| 0 <= i < es.drop_last().len() && (#[trigger] es.drop_last()[i]).0@ == k;
                assert(es[i] == es.drop_last()[i]);
            }
        }
    }

    proof fn lemma_len(es: Seq<(String, Tree<String>)>)
        requires
            forall|i: int, j: int| 0 <= i < j < es.len() ==> es[i].0@ != es[j].0@,
        ensures
            entries_map(es).len() == es.len(),
            entries_map(es).dom().finite(),
        decreases es.len(),
    {
        if es.len() > 0 {
            let d = es.drop_last();
            assert forall|i: int, j: int| 0 <= i < j < d.len() implies d[i].0@ != d[j].0@ by {
                assert(d[i] == es[i] && d[j] == es[j]);
            }
            Self::lemma_len(d);
            Self::lemma_map(d, es.last().0@);
            if entries_map(d).contains_key(es.last().0@) {
                let i = choose|i: int| 0 <= i < d.len() && (#[trigger] d[i]).0@ == es.last().0@;
                assert(d[i] == es[i]);
            }
        }
    }

    /// The number of captures bound.
    pub fn len(&self) -> (r: usize)
        requires
            self.wf(),
        ensures
            r == self.view().len(),
    {
        proof {
            Self::lemma_len(self.entries@);
        }
        self.entries.len()
    }

    /// With distinct names, each entry is what its name maps to.
    proof fn lemma_lookup(es: Seq<(String, Tree<String>)>, i: int)
        requires
            0 <= i < es.len(),
            forall|a: int, b: int| 0 <= a < b < es.len() ==> es[a].0@ != es[b].0@,
        ensures
            entries_map(es).contains_key(es[i].0@),
            entries_map(es)[es[i].0@] == es[i].1.view_term(),
        decreases es.len(),
    {
        if i < es.len() - 1 {
            let d = es.drop_last();
            assert(d[i] == es[i]);
            assert forall|a: int, b: int| 0 <= a < b < d.len() implies d[a].0@ != d[b].0@ by {
                assert(d[a] == es[a] && d[b] == es[b]);
            }
            Self::lemma_lookup(d, i);
        }
    }

    /// What the capture `name` matched, if it is bound.
    pub fn get(&self, name: &str) -> (r: Option<&Tree<String>>)
        requires
            self.wf(),
        ensures
            self.view().contains_key(name@) ==> r is Some && r->Some_0.wf() && r->Some_0.view_term() == self.view()[name@],
            !self.view().contains_key(name@) ==> r is None,
    {
        let key = name.to_owned();
        let mut i: usize = 0;
        let ghost es = self.entries@;
        while i < self.entries.len()
            invariant
                i <= es.len(),
                es == self.entries@,
                key@ == name@,
                self.wf(),
                forall|j: int| 0 <= j < i ==> es[j].0@ != name@,
            decreases es.len() - i,
        {
            if self.entries[i].0 == key {
                proof {
                    Self::lemma_lookup(es, i as int);
                    assert(es[i as int].1.wf());
                }
                return Some(&self.entries[i].1);
            }
            i += 1;
        }
        proof {
            Self::lemma_map(es, name@);
        }
        None
    }

    /// Binds `name` to `t`; `name` must not be bound yet.
    fn insert(&mut self, name: String, t: Tree<String>)
        requires
            old(self).wf(),
            t.wf(),
            !old(self).view().contains_key(name@),
        ensures
            final(self).wf(),
            final(self).view() == old(self).view().insert(name@, t.view_term()),
    {
        proof {
            Self::lemma_map(self.entries@, name@);
        }
        let ghost es = self.entries@;
        self.entries.push((name, t));
        assert(self.entries@.drop_last() =~= es);
        proof {
            assert forall|i: int, j: int| 0 <= i < j < self.entries@.len() implies self.entries@[i].0@
                != self.entries@[j].0@ by {
                if j == es.len() {
                    assert(self.entries@[i] == es[i]);
                }
            }
        }
    }
}

pub open spec fn is_wild(v: Seq<char>) -> bool {
    v == seq!['_']
}

pub open spec fn is_capture(v: Seq<char>) -> bool {
    v.len() > 0 && v[0] == '@'
}

/// Matches `t` against the pattern `p`, extending the bindings `b`: `_`
/// matches anything; `@name` binds `name` to the subterm, or, when bound
/// already, asks for an equal subterm; any other node asks for the same value
/// and child count, then matches the children in order.
pub open spec fn match_term(t: Term<Seq<char>>, p: Term<Seq<char>>, b: Map<Seq<char>, Term<Seq<char>>>) -> Option<
    Map<Seq<char>, Term<Seq<char>>>,
>
    decreases p, 0int,
{
    if is_wild(p.value) {
        Some(b)
    } else if is_capture(p.value) {
        let name = p.value.drop_first();
        if b.contains_key(name) {
            if b[name] == t {
                Some(b)
            } else {
                None
            }
        } else {
            Some(b.insert(name, t))
        }
    } else if t.value != p.value || t.children.len() != p.children.len() {
        None
    } else {
        match_seq(t.children, p.children, b, 0)
    }
}

/// Matches `ts[i..]` against `ps[i..]` in order.
pub open spec fn match_seq(
    ts: Seq<Term<Seq<char>>>,
    ps: Seq<Term<Seq<char>>>,
    b: Map<Seq<char>, Term<Seq<char>>>,
    i: int,
) -> Option<Map<Seq<char>, Term<Seq<char>>>>
    decreases ps, ps.len() - i,
{
    if i < 0 || i >= ps.len() || i >= ts.len() {
        Some(b)
    } else {
        match match_term(ts[i], ps[i], b) {
            Some(b2) => match_seq(ts, ps, b2, i + 1),
            None => None,
        }
    }
}


/// A successful match keeps every binding it started with.
pub proof fn lemma_match_extends(t: Term<Seq<char>>, p: Term<Seq<char>>, b: Map<Seq<char>, Term<Seq<char>>>)
    ensures
        match_term(t, p, b) matches Some(b2) ==> forall|k: Seq<char>| #[trigger] b.contains_key(k) ==> b2.contains_key(k) && b2[k] == b[k],
    decreases p, 0int,
{
    if !is_wild(p.value) && !is_capture(p.value) && t.value == p.value && t.children.len() == p.children.len() {
        lemma_match_seq_extends(t.children, p.children, b, 0);
    }
}

pub proof fn lemma_match_seq_extends(
    ts: Seq<Term<Seq<char>>>,
    ps: Seq<Term<Seq<char>>>,
    b: Map<Seq<char>, Term<Seq<char>>>,
    i: int,
)
    ensures
        match_seq(ts, ps, b, i) matches Some(b2) ==> forall|k: Seq<char>| #[trigger] b.contains_key(k) ==> b2.contains_key(k) && b2[k] == b[k],
    decreases ps, ps.len() - i,
{
    if 0 <= i < ps.len() && i < ts.len() {
        lemma_match_extends(ts[i], ps[i], b);
        if let Some(b2) = match_term(ts[i], ps[i], b) {
            lemma_match_seq_extends(ts, ps, b2, i + 1);
        }
    }
}

/// The pattern `@x`.
pub open spec fn capture(x: Seq<char>) -> Term<Seq<char>> {
    crate::tree::leaf(seq!['@'] + x)
}

proof fn lemma_capture_shape(x: Seq<char>)
    ensures
        !is_wild(capture(x).value),
        is_capture(capture(x).value),
        capture(x).value.drop_first() == x,
{
    assert(capture(x).value[0] == '@');
    assert(capture(x).value.drop_first() =~= x);
}

/// Once `x` is bound to `w`, a later `@x` against a subterm other than `w` fails.
proof fn lemma_bound_capture(
    ts: Seq<Term<Seq<char>>>,
    ps: Seq<Term<Seq<char>>>,
    b: Map<Seq<char>, Term<Seq<char>>>,
    k: int,
    j: int,
    x: Seq<char>,
    w: Term<Seq<char>>,
)
    requires
        0 <= k <= j < ps.len(),
        j < ts.len(),
        ps[j] == capture(x),
        b.contains_key(x),
        b[x] == w,
        ts[j] != w,
    ensures
        match_seq(ts, ps, b, k) is None,
    decreases j - k,
{
    lemma_capture_shape(x);
    if k < j {
        lemma_match_extends(ts[k], ps[k], b);
        if let Some(b2) = match_term(ts[k], ps[k], b) {
            lemma_bound_capture(ts, ps, b2, k + 1, j, x, w);
        }
    }
}

proof fn lemma_repeated_seq(
    ts: Seq<Term<Seq<char>>>,
    ps: Seq<Term<Seq<char>>>,
    b: Map<Seq<char>, Term<Seq<char>>>,
    k: int,
    i: int,
    j: int,
    x: Seq<char>,
)
    requires
        0 <= k <= i < j < ps.len(),
        j < ts.len(),
        ps[i] == capture(x),
        ps[j] == capture(x),
        ts[i] != ts[j],
    ensures
        match_seq(ts, ps, b, k) is None,
    decreases i - k,
{
    lemma_capture_shape(x);
    if k < i {
        if let Some(b2) = match_term(ts[k], ps[k], b) {
            lemma_repeated_seq(ts, ps, b2, k + 1, i, j, x);
        }
    } else {
        if let Some(b2) = match_term(ts[i], ps[i], b) {
            assert(b2.contains_key(x) && b2[x] == ts[i]);
            lemma_bound_capture(ts, ps, b2, i + 1, j, x, ts[i]);
        }
    }
}

/// A capture used at two positions among a node's children must match equal
/// subterms there: against two different subterms the whole match fails,
/// whatever was bound before.
pub proof fn lemma_repeated_capture_at(
    v: Seq<char>,
    ts: Seq<Term<Seq<char>>>,
    ps: Seq<Term<Seq<char>>>,
    i: int,
    j: int,
    x: Seq<char>,
    b: Map<Seq<char>, Term<Seq<char>>>,
)
    requires
        !is_wild(v),
        !is_capture(v),
        ts.len() == ps.len(),
        0 <= i < j < ps.len(),
        ps[i] == capture(x),
        ps[j] == capture(x),
        ts[i] != ts[j],
    ensures
        match_term(Term { value: v, children: ts }, Term { value: v, children: ps }, b) is None,
{
    lemma_repeated_seq(ts, ps, b, 0, i, j, x);
}

/// Matches the term below `ast` against the pattern below `pat`, extending `map`.
fn pattern_match_sub(ast: Subtree<'_, String>, pat: Subtree<'_, String>, map: &mut Bindings) -> (r: bool)
    requires
        old(map).wf(),
    ensures
        final(map).wf(),
        match match_term(ast.term(), pat.term(), old(map).view()) {
            Some(b) => r && final(map).view() == b,
            None => !r,
        },
    decreases pat.tree().slots() - pat.at(),
{
    let pv = pat.get_root();
    let cs = crate::text::chars_of(pv.as_str());
    if cs.len() == 1 && cs[0] == '_' {
        assert(pat.term().value =~= seq!['_']);
        return true;
    }
    assert(!is_wild(pat.term().value)) by {
        if is_wild(pat.term().value) {
            assert(pat.term().value.len() == 1);
        }
    }
    if cs.len() > 0 && cs[0] == '@' {
        let rest = crate::lexer::take_chars(&cs, 1, cs.len());
        let name = crate::text::string_of(rest.as_slice());
        assert(name@ =~= pat.term().value.drop_first());
        match map.get(name.as_str()) {
            Some(tree) => {
                return subtree_eq(tree.subtree_root(), ast);
            },
            None => {
                map.insert(name, ast.to_owned());
                return true;
            },
        }
    }
    assert(!is_capture(pat.term().value));
    if *ast.get_root() != *pv {
        return false;
    }
    let n = pat.children_len();
    if ast.children_len() != n {
        return false;
    }
    let ghost ts = ast.term().children;
    let ghost ps = pat.term().children;
    let ghost b0 = old(map).view();
    let mut i: usize = 0;
    while i < n
        invariant
            i <= n,
            n == ps.len(),
            n == ts.len(),
            ts == ast.term().children,
            ps == pat.term().children,
            map.wf(),
            b0 == old(map).view(),
            !is_wild(pat.term().value),
            !is_capture(pat.term().value),
            ast.term().value == pat.term().value,
            match_seq(ts, ps, b0, 0) == match_seq(ts, ps, map.view(), i as int),
        decreases n - i,
    {
        let a = ast.child(i);
        let p = pat.child(i);
        let ghost before = map.view();
        if !pattern_match_sub(a, p, map) {
            assert(match_seq(ts, ps, before, i as int) is None);
            return false;
        }
        i += 1;
    }
    true
}

/// Matches the term below `ast` against the pattern below `pat`.
pub fn pattern_match_tree(ast: Subtree<'_, String>, pat: Subtree<'_, String>) -> (r: Result<Bindings, ()>)
    ensures
        match match_term(ast.term(), pat.term(), Map::empty()) {
            Some(b) => r is Ok && r->Ok_0.wf() && r->Ok_0.view() == b,
            None => r is Err,
        },
{
    let mut map = Bindings::new();
    if pattern_match_sub(ast, pat, &mut map) {
        Ok(map)
    } else {
        Err(())
    }
}

/// Why parsing text failed.
#[derive(Debug, Clone, Copy, PartialEq, Eq, Structural)]
pub enum ParseError {
    /// Some stretch of the text matched no token class.
    Lex,
    /// The tokens did not form one term.
    Build(BuildError),
}

/// The text that describes `e`.
pub open spec fn parse_message(e: ParseError) -> Seq<char> {
    match e {
        ParseError::Lex => "no token matches the input"@,
        ParseError::Build(b) => crate::ast::build_message(b),
    }
}

impl ParseError {
    pub fn message(&self) -> (r: &'static str)
        ensures
            r@ == parse_message(*self),
    {
        match self {
            ParseError::Lex => "no token matches the input",
            ParseError::Build(e) => e.message(),
        }
    }
}

/// Why a pattern match failed.
#[derive(Debug, Clone, Copy, PartialEq, Eq, Structural)]
pub enum MatchError {
    /// The pattern text did not parse.
    Parse(ParseError),
    /// The term does not match the pattern.
    Mismatch,
}

pub open spec fn empty_lex() -> LexState {
    LexState { toks: Seq::empty(), buf: Seq::empty(), failed: false }
}

/// The term that the text `s` denotes under `syms`: the text and a closing
/// space are lexed, and the tokens built into one term.
pub open spec fn parse_text(syms: Seq<SymData>, s: Seq<char>) -> Result<Term<Seq<char>>, ParseError> {
    let st1 = feed(syms, empty_lex(), s);
    let st2 = feed(syms, st1, seq![' ']);
    if st1.failed || st2.failed {
        Err(ParseError::Lex)
    } else {
        match build(st2.toks) {
            Ok(t) => Ok(t),
            Err(e) => Err(ParseError::Build(e)),
        }
    }
}

/// Lexer and builder together, under one operator table.
pub struct Parser {
    lexer: Lexer,
    parser: AstGen,
}

impl Parser {
    /// The operator table.
    pub closed spec fn syms(&self) -> Seq<SymData> {
        self.lexer.table().syms()
    }

    /// Both stages are idle.
    pub closed spec fn wf(&self) -> bool {
        &&& self.lexer.state() == empty_lex()
        &&& self.parser.wf()
        &&& self.parser.state() == (crate::ast::GenState { items: Seq::empty(), open: Seq::empty() })
    }

    pub fn new(syms: SymDB) -> (r: Self)
        ensures
            r.wf(),
            r.syms() == syms.syms(),
    {
        Parser { lexer: Lexer::new(syms), parser: AstGen::new() }
    }

    /// Returns both stages to idle.
    pub fn clear(&mut self)
        ensures
            final(self).wf(),
            final(self).syms() == old(self).syms(),
    {
        self.lexer.clear();
        let _ = self.lexer.recv_tokens();
        self.parser.clear();
    }

    /// The term that the text `s` denotes.
    pub fn parse(&mut self, s: &str) -> (r: Result<Tree<String>, ParseError>)
        requires
            old(self).wf(),
        ensures
            final(self).wf(),
            final(self).syms() == old(self).syms(),
            match parse_text(old(self).syms(), s@) {
                Ok(t) => r is Ok && r->Ok_0.wf() && r->Ok_0.view_term() == t,
                Err(e) => r is Err && r->Err_0 == e,
            },
    {
        if self.lexer.push_str(s) == MatchState::Failure {
            self.clear();
            return Err(ParseError::Lex);
        }
        if self.lexer.delimit() == MatchState::Failure {
            self.clear();
            return Err(ParseError::Lex);
        }
        let tokens = self.lexer.recv_tokens();
        let result = self.parser.recv_all(tokens);
        self.clear();
        match result {
            Ok(t) => Ok(t),
            Err(e) => Err(ParseError::Build(e)),
        }
    }

    pub fn symdb(&self) -> (r: &SymDB)
        ensures
            r.syms() == self.syms(),
    {
        &self.lexer.kwds
    }

    /// Parses `pat` and matches the term below `ast` against it.
    pub fn pattern_match(&mut self, ast: Subtree<'_, String>, pat: &str) -> (r: Result<Bindings, MatchError>)
        requires
            old(self).wf(),
        ensures
            final(self).wf(),
            final(self).syms() == old(self).syms(),
            match parse_text(old(self).syms(), pat@) {
                Ok(p) => match match_term(ast.term(), p, Map::empty()) {
                    Some(b) => r is Ok && r->Ok_0.wf() && r->Ok_0.view() == b,
                    None => r == Err::<Bindings, MatchError>(MatchError::Mismatch),
                },
                Err(e) => r == Err::<Bindings, MatchError>(MatchError::Parse(e)),
            },
    {
        let pat = match self.parse(pat) {
            Ok(p) => p,
            Err(e) => {
                return Err(MatchError::Parse(e));
            },
        };
        match pattern_match_tree(ast, pat.subtree_root()) {
            Ok(map) => Ok(map),
            Err(()) => Err(MatchError::Mismatch),
        }
    }
}

} // verus!
