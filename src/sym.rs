//! The symbol table: declared operators with their layout, precedence and
//! associativity, and the renderer that prints a term with as few
//! parentheses as the table allows.
use vstd::prelude::*;
use crate::text::push_all;
use crate::tree::{Term, Tree, Subtree};
use crate::util::{words_from, split_words, digits_part, all_digits, dec_value, parse_usize};
use crate::names::name_views;

verus! {

/// Associativity: which of two equal-precedence operators binds first.
#[derive(Debug, Clone, Copy, PartialEq, Eq, Structural)]
pub enum Assoc {
    L,
    R,
}

/// The number of operand positions before and after an operator's token.
#[derive(Debug, Clone, Copy, PartialEq, Eq, Structural)]
pub struct Layout {
    pub front: usize,
    pub back: usize,
}

impl Layout {
    pub fn new(front: usize, back: usize) -> (r: Self)
        ensures
            r.front == front,
            r.back == back,
    {
        Layout { front, back }
    }

    pub fn arity(&self) -> (r: usize)
        requires
            self.front + self.back <= usize::MAX,
        ensures
            r == self.front + self.back,
    {
        self.front + self.back
    }
}

/// A declared operator, or the implicit nullary symbol of an undeclared name.
pub struct SymData {
    pub name: String,
    pub layout: Layout,
    pub prec: i32,
    pub assoc: Assoc,
}

/// The abstract value of a symbol.
pub struct Sym {
    pub name: Seq<char>,
    pub front: nat,
    pub back: nat,
    pub prec: int,
    pub assoc: Assoc,
}

/// The precedence of nullary symbols: the loosest, so that they never need grouping.
pub const NULLARY_PREC: i32 = 2147483647;

pub open spec fn sym_view(s: SymData) -> Sym {
    Sym {
        name: s.name@,
        front: s.layout.front as nat,
        back: s.layout.back as nat,
        prec: s.prec as int,
        assoc: s.assoc,
    }
}

/// The symbol that an undeclared name stands for.
pub open spec fn ident_sym(name: Seq<char>) -> Sym {
    Sym { name, front: 0, back: 0, prec: NULLARY_PREC as int, assoc: Assoc::L }
}

/// The index of the last declaration of `name`, if any.
pub open spec fn last_named(syms: Seq<SymData>, name: Seq<char>) -> Option<int>
    decreases syms.len(),
{
    if syms.len() == 0 {
        None
    } else if syms.last().name@ == name {
        Some(syms.len() - 1)
    } else {
        last_named(syms.drop_last(), name)
    }
}

/// What `name` denotes under `syms`: its last declaration, else a variable.
pub open spec fn lookup(syms: Seq<SymData>, name: Seq<char>) -> Sym {
    match last_named(syms, name) {
        Some(i) => sym_view(syms[i]),
        None => ident_sym(name),
    }
}

pub proof fn lemma_last_named(syms: Seq<SymData>, name: Seq<char>)
    ensures
        last_named(syms, name) matches Some(i) ==> 0 <= i < syms.len() && syms[i].name@ == name
            && forall|j: int| i < j < syms.len() ==> syms[j].name@ != name,
        last_named(syms, name) is None ==> forall|j: int| 0 <= j < syms.len() ==> syms[j].name@ != name,
    decreases syms.len(),
{
    if syms.len() > 0 {
        lemma_last_named(syms.drop_last(), name);
        assert forall|j: int| 0 <= j < syms.len() - 1 implies syms.drop_last()[j] == syms[j] by {}
    }
}

/// Whether child number `i`, with symbol `child`, is printed in parentheses
/// under an operator with symbol `parent`.
pub open spec fn needs_paren(parent: Sym, child: Sym, i: int) -> bool {
    if child.front + child.back == 0 {
        false
    } else if child.prec < parent.prec {
        true
    } else if child.prec > parent.prec {
        false
    } else if i < parent.front {
        parent.assoc == Assoc::R
    } else {
        parent.assoc == Assoc::L
    }
}

/// The words joined by single spaces.
pub open spec fn join_words(ws: Seq<Seq<char>>) -> Seq<char>
    decreases ws.len(),
{
    if ws.len() == 0 {
        Seq::empty()
    } else if ws.len() == 1 {
        ws[0]
    } else {
        join_words(ws.drop_last()) + seq![' '] + ws.last()
    }
}

pub open spec fn views(ws: Seq<String>) -> Seq<Seq<char>> {
    ws.map_values(|w: String| w@)
}

/// The operand at position `i` of `t`, printed, and parenthesised where needed.
pub open spec fn operand(syms: Seq<SymData>, t: Term<Seq<char>>, i: int) -> Seq<char>
    decreases t, 0nat,
{
    if 0 <= i < t.children.len() {
        let c = t.children[i];
        let r = render(syms, c);
        if needs_paren(lookup(syms, t.value), lookup(syms, c.value), i) {
            seq!['('] + r + seq![')']
        } else {
            r
        }
    } else {
        Seq::empty()
    }
}

/// The number of operands printed before the operator's name.
pub open spec fn front_count(s: Sym, n: nat) -> nat {
    if s.front < n { s.front } else { n }
}

/// The number of operands printed in all.
pub open spec fn operand_count(s: Sym, n: nat) -> nat {
    if s.front + s.back < n { s.front + s.back } else { n }
}

/// The words that print `t`: the front operands, the name, the back operands.
pub open spec fn words(syms: Seq<SymData>, t: Term<Seq<char>>) -> Seq<Seq<char>>
    decreases t, 1nat,
{
    let s = lookup(syms, t.value);
    let nf = front_count(s, t.children.len());
    let na = operand_count(s, t.children.len());
    Seq::new(nf, |i: int| operand(syms, t, i)) + seq![t.value] + Seq::new(
        (na - nf) as nat,
        |j: int| operand(syms, t, nf + j),
    )
}

/// `t` printed with as few parentheses as `syms` allows: a nullary symbol is
/// its name; an operator is its front operands, its name and its back
/// operands, separated by spaces.
pub open spec fn render(syms: Seq<SymData>, t: Term<Seq<char>>) -> Seq<char>
    decreases t, 2nat,
{
    let s = lookup(syms, t.value);
    if s.front + s.back == 0 {
        t.value
    } else {
        join_words(words(syms, t))
    }
}

/// The words of `ws`, joined by single spaces.
pub fn join(ws: &Vec<String>) -> (r: String)
    ensures
        r@ == join_words(views(ws@)),
{
    let mut r = String::new();
    let mut i: usize = 0;
    while i < ws.len()
        invariant
            i <= ws@.len(),
            r@ == join_words(views(ws@.subrange(0, i as int))),
        decreases ws@.len() - i,
    {
        let ghost pre = views(ws@.subrange(0, i as int));
        let ghost next = views(ws@.subrange(0, i + 1));
        assert(next.drop_last() =~= pre);
        assert(next.last() == ws@[i as int]@);
        if i > 0 {
            crate::text::push_char(&mut r, ' ');
        } else {
            assert(pre =~= Seq::<Seq<char>>::empty());
        }
        push_all(&mut r, ws[i].as_str());
        i += 1;
    }
    assert(ws@.subrange(0, ws@.len() as int) =~= ws@);
    r
}

/// Why an operator table did not load.
#[derive(Debug, Clone, Copy, PartialEq, Eq, Structural)]
pub enum TableError {
    /// A declaration lacks its front or back count.
    Syntax,
    /// A front or back count is not a number.
    Number,
    /// The associativity is neither `L` nor `R`.
    Assoc,
    /// The first declaration omits its associativity.
    FirstAssoc,
    /// More precedence levels than an `i32` can number below the nullary one.
    TooManyLevels,
}

/// The first position at or after `i` that holds `#`, or the end.
pub open spec fn first_hash(l: Seq<char>, i: int) -> int
    decreases l.len() - i,
{
    if 0 <= i < l.len() && l[i] != '#' {
        first_hash(l, i + 1)
    } else {
        i
    }
}

pub proof fn lemma_first_hash(l: Seq<char>, i: int)
    requires
        0 <= i <= l.len(),
    ensures
        i <= first_hash(l, i) <= l.len(),
    decreases l.len() - i,
{
    if i < l.len() && l[i] != '#' {
        lemma_first_hash(l, i + 1);
    }
}

/// A line without its comment.
pub open spec fn before_hash(l: Seq<char>) -> Seq<char> {
    l.subrange(0, first_hash(l, 0))
}

pub open spec fn assoc_of(w: Seq<char>) -> Option<Assoc> {
    if w == seq!['L'] {
        Some(Assoc::L)
    } else if w == seq!['R'] {
        Some(Assoc::R)
    } else {
        None
    }
}

/// The number that `w` spells, if it fits in `usize`.
pub open spec fn parse_num(w: Seq<char>) -> Option<nat> {
    let d = digits_part(w);
    if d.len() > 0 && all_digits(d) && dec_value(d) <= usize::MAX {
        Some(dec_value(d) as nat)
    } else {
        None
    }
}

/// The declarations of the lines `ls[i..]`, after those in `acc`, at
/// precedence `prec` so far: each line is `name front back [assoc]`; an
/// explicit associativity opens the next tighter precedence level, so earlier
/// levels bind looser and every level stays below that of nullary symbols; an
/// omitted one stays at the previous declaration's level and associativity.
pub open spec fn table_from(ls: Seq<Seq<char>>, i: int, acc: Seq<Sym>, prec: int) -> Result<Seq<Sym>, TableError>
    decreases ls.len() - i,
{
    if i < 0 || i >= ls.len() {
        Ok(acc)
    } else {
        let ws = words_from(before_hash(ls[i]), 0);
        if ws.len() == 0 {
            table_from(ls, i + 1, acc, prec)
        } else if ws.len() < 2 {
            Err(TableError::Syntax)
        } else {
            match parse_num(ws[1]) {
                None => Err(TableError::Number),
                Some(front) => if ws.len() < 3 {
                    Err(TableError::Syntax)
                } else {
                    match parse_num(ws[2]) {
                        None => Err(TableError::Number),
                        Some(back) => if ws.len() >= 4 {
                            if prec + 1 >= NULLARY_PREC {
                                Err(TableError::TooManyLevels)
                            } else {
                                match assoc_of(ws[3]) {
                                    None => Err(TableError::Assoc),
                                    Some(a) => table_from(
                                        ls,
                                        i + 1,
                                        acc.push(Sym { name: ws[0], front, back, prec: prec + 1, assoc: a }),
                                        prec + 1,
                                    ),
                                }
                            }
                        } else if acc.len() == 0 {
                            Err(TableError::FirstAssoc)
                        } else {
                            table_from(
                                ls,
                                i + 1,
                                acc.push(Sym { name: ws[0], front, back, prec, assoc: acc.last().assoc }),
                                prec,
                            )
                        },
                    }
                },
            }
        }
    }
}

pub open spec fn sym_views(v: Seq<SymData>) -> Seq<Sym> {
    v.map_values(|s: SymData| sym_view(s))
}

impl SymData {
    pub fn arity(&self) -> (r: usize)
        requires
            self.layout.front + self.layout.back <= usize::MAX,
        ensures
            r == self.layout.front + self.layout.back,
    {
        self.layout.arity()
    }

    pub fn is_nullary(&self) -> (r: bool)
        ensures
            r == (self.layout.front + self.layout.back == 0),
    {
        self.layout.front == 0 && self.layout.back == 0
    }

    pub fn new(name: &str, front: usize, back: usize, prec: i32, assoc: Assoc) -> (r: Self)
        ensures
            r.name@ == name@,
            r.layout.front == front,
            r.layout.back == back,
            r.prec == prec,
            r.assoc == assoc,
    {
        SymData { name: name.to_owned(), layout: Layout { front, back }, prec, assoc }
    }

    /// The nullary symbol of a variable or constant named `ident`.
    pub fn new_ident(ident: &str) -> (r: Self)
        ensures
            sym_view(r) == ident_sym(ident@),
    {
        SymData {
            name: ident.to_owned(),
            layout: Layout { front: 0, back: 0 },
            prec: NULLARY_PREC,
            assoc: Assoc::L,
        }
    }

    /// A copy of this symbol.
    pub fn duplicate(&self) -> (r: Self)
        ensures
            sym_view(r) == sym_view(*self),
    {
        SymData { name: self.name.clone(), layout: self.layout, prec: self.prec, assoc: self.assoc }
    }
}

/// The declared operators, in the order of declaration.
pub struct SymDB {
    pub(crate) symbols: Vec<SymData>,
}

impl SymDB {
    pub open(crate) spec fn syms(&self) -> Seq<SymData> {
        self.symbols@
    }

    pub fn new() -> (r: Self)
        ensures
            r.syms().len() == 0,
    {
        SymDB { symbols: Vec::new() }
    }

    pub fn push(&mut self, sym: SymData)
        ensures
            final(self).syms() == old(self).syms().push(sym),
    {
        self.symbols.push(sym);
    }

    /// Declares `s` as a nullary symbol.
    pub fn push_nullary(&mut self, s: &str)
        ensures
            final(self).syms().len() == old(self).syms().len() + 1,
            final(self).syms().drop_last() == old(self).syms(),
            sym_view(final(self).syms().last()) == ident_sym(s@),
    {
        let sym = SymData::new_ident(s);
        self.symbols.push(sym);
        assert(final(self).syms().drop_last() =~= old(self).syms());
    }

    pub fn len(&self) -> (r: usize)
        ensures
            r == self.syms().len(),
    {
        self.symbols.len()
    }

    /// The symbol that `s` denotes: its last declaration, else a variable.
    pub fn get(&self, s: &str) -> (r: SymData)
        ensures
            sym_view(r) == lookup(self.syms(), s@),
    {
        let key = s.to_owned();
        let mut i = self.symbols.len();
        assert(self.syms().subrange(0, i as int) =~= self.syms());
        while i > 0
            invariant
                i <= self.syms().len(),
                key@ == s@,
                last_named(self.syms(), s@) == last_named(self.syms().subrange(0, i as int), s@),
            decreases i,
        {
            let ghost pre = self.syms().subrange(0, i as int);
            assert(pre.drop_last() =~= self.syms().subrange(0, i - 1));
            if self.symbols[i - 1].name == key {
                return self.symbols[i - 1].duplicate();
            }
            i -= 1;
        }
        SymData::new_ident(s)
    }

    /// Whether `s` is not the name of any declared symbol.
    pub fn is_variable(&self, s: &str) -> (r: bool)
        ensures
            r == (last_named(self.syms(), s@) is None),
    {
        proof {
            lemma_last_named(self.syms(), s@);
        }
        let key = s.to_owned();
        let mut i: usize = 0;
        while i < self.symbols.len()
            invariant
                i <= self.syms().len(),
                key@ == s@,
                forall|j: int| 0 <= j < i ==> self.syms()[j].name@ != s@,
            decreases self.syms().len() - i,
        {
            if self.symbols[i].name == key {
                proof {
                    lemma_last_named(self.syms(), s@);
                    assert(self.syms()[i as int].name@ == s@);
                }
                return false;
            }
            i += 1;
        }
        true
    }

    /// Operand number `i` of the term below `sub`, printed as `operand` says.
    fn operand_word(&self, sub: Subtree<'_, String>, i: usize) -> (r: String)
        requires
            i < sub.term().children.len(),
        ensures
            r@ == operand(self.syms(), sub.term(), i as int),
        decreases sub.tree().slots() - sub.at(), 0nat,
    {
        let sym = self.get(sub.get_root().as_str());
        let c = sub.child(i);
        let r = self.render_sub(c);
        let csym = self.get(c.get_root().as_str());
        let paren = if csym.is_nullary() {
            false
        } else if csym.prec < sym.prec {
            true
        } else if csym.prec > sym.prec {
            false
        } else if i < sym.layout.front {
            sym.assoc == Assoc::R
        } else {
            sym.assoc == Assoc::L
        };
        if paren {
            let mut w = String::new();
            crate::text::push_char(&mut w, '(');
            push_all(&mut w, r.as_str());
            crate::text::push_char(&mut w, ')');
            w
        } else {
            r
        }
    }

    /// The term below `sub`, printed as `render` says.
    fn render_sub(&self, sub: Subtree<'_, String>) -> (r: String)
        ensures
            r@ == render(self.syms(), sub.term()),
        decreases sub.tree().slots() - sub.at(), 1nat,
    {
        let name = sub.get_root();
        let sym = self.get(name.as_str());
        let ghost t = sub.term();
        let ghost sv = lookup(self.syms(), t.value);
        if sym.is_nullary() {
            return name.clone();
        }
        let n = sub.children_len();
        let nf = if sym.layout.front < n { sym.layout.front } else { n };
        let na = if sym.layout.back < n - nf { nf + sym.layout.back } else { n };
        let ghost ws = words(self.syms(), t);
        proof {
            assert(nf == front_count(sv, t.children.len()));
            assert(na == operand_count(sv, t.children.len()));
        }
        let mut out: Vec<String> = Vec::new();
        let mut i: usize = 0;
        while i < nf
            invariant
                t == sub.term(),
                n == t.children.len(),
                nf <= na <= n,
                nf == front_count(sv, n as nat),
                sv == lookup(self.syms(), t.value),
                i <= nf,
                ws == words(self.syms(), t),
                views(out@) == ws.subrange(0, i as int),
            decreases nf - i,
        {
            let w = self.operand_word(sub, i);
            assert(ws[i as int] == operand(self.syms(), t, i as int));
            let ghost before = out@;
            out.push(w);
            assert(views(out@) =~= views(before).push(w@));
            i += 1;
            assert(views(out@) =~= ws.subrange(0, i as int));
        }
        let ghost before = out@;
        out.push(name.clone());
        assert(views(out@) =~= views(before).push(t.value));
        assert(views(out@) =~= ws.subrange(0, nf + 1));
        while i < na
            invariant
                t == sub.term(),
                n == t.children.len(),
                nf <= i <= na <= n,
                nf == front_count(sv, n as nat),
                na == operand_count(sv, n as nat),
                sv == lookup(self.syms(), t.value),
                ws == words(self.syms(), t),
                views(out@) == ws.subrange(0, i + 1),
            decreases na - i,
        {
            let w = self.operand_word(sub, i);
            assert(ws[i + 1] == operand(self.syms(), t, nf + (i - nf)));
            let ghost before = out@;
            out.push(w);
            assert(views(out@) =~= views(before).push(w@));
            i += 1;
            assert(views(out@) =~= ws.subrange(0, i + 1));
        }
        assert(views(out@) =~= ws);
        join(&out)
    }

    /// Prints `tree` with as few parentheses as this table allows.
    pub fn ast_to_string_minimal(&self, tree: &Tree<String>) -> (r: String)
        requires
            tree.wf(),
        ensures
            r@ == render(self.syms(), tree.view_term()),
    {
        self.render_sub(tree.subtree_root())
    }

    /// Reads an operator table, one declaration per line; `#` starts a comment.
    pub fn parse_lines(lines: &Vec<String>) -> (r: Result<SymDB, TableError>)
        ensures
            match table_from(name_views(lines@), 0, Seq::empty(), i32::MIN as int) {
                Ok(v) => r is Ok && sym_views(r->Ok_0.syms()) == v,
                Err(e) => r == Err::<SymDB, TableError>(e),
            },
    {
        let ghost ls = name_views(lines@);
        let ghost goal = table_from(ls, 0, Seq::empty(), i32::MIN as int);
        let mut db = SymDB::new();
        let mut prec: i32 = i32::MIN;
        let mut i: usize = 0;
        assert(sym_views(db.syms()) =~= Seq::<Sym>::empty());
        while i < lines.len()
            invariant
                i <= lines@.len(),
                ls == name_views(lines@),
                goal == table_from(ls, 0, Seq::empty(), i32::MIN as int),
                goal == table_from(ls, i as int, sym_views(db.syms()), prec as int),
                db.syms().len() > 0 ==> db.syms().last().prec == prec,
            decreases lines@.len() - i,
        {
            let cs = crate::text::chars_of(lines[i].as_str());
            assert(cs@ == ls[i as int]);
            let mut k: usize = 0;
            while k < cs.len() && cs[k] != '#'
                invariant
                    k <= cs@.len(),
                    first_hash(cs@, 0) == first_hash(cs@, k as int),
                decreases cs@.len() - k,
            {
                k += 1;
            }
            let body = crate::lexer::take_chars(&cs, 0, k);
            let ws = split_words(&body);
            let ghost wv = words_from(before_hash(ls[i as int]), 0);
            assert(body@ == before_hash(ls[i as int]));
            if ws.len() == 0 {
                assert(wv.len() == 0);
                i += 1;
                continue;
            }
            if ws.len() < 2 {
                return Err(TableError::Syntax);
            }
            let front = match parse_usize(crate::text::string_of(ws[1].as_slice()).as_str()) {
                Some(n) => n,
                None => {
                    return Err(TableError::Number);
                },
            };
            if ws.len() < 3 {
                return Err(TableError::Syntax);
            }
            let back = match parse_usize(crate::text::string_of(ws[2].as_slice()).as_str()) {
                Some(n) => n,
                None => {
                    return Err(TableError::Number);
                },
            };
            let name = crate::text::string_of(ws[0].as_slice());
            let ghost before = sym_views(db.syms());
            assert(wv[1] == ws@[1]@ && wv[2] == ws@[2]@);
            assert(parse_num(wv[1]) == Some(front as nat));
            assert(parse_num(wv[2]) == Some(back as nat));
            if ws.len() >= 4 {
                if prec >= NULLARY_PREC - 1 {
                    return Err(TableError::TooManyLevels);
                }
                let a = &ws[3];
                let assoc = if a.len() == 1 && a[0] == 'L' {
                    assert(a@ =~= seq!['L']);
                    Assoc::L
                } else if a.len() == 1 && a[0] == 'R' {
                    assert(a@ =~= seq!['R']);
                    Assoc::R
                } else {
                    assert(assoc_of(a@) is None) by {
                        if a@ == seq!['L'] || a@ == seq!['R'] {
                            assert(a@.len() == 1);
                        }
                    }
                    return Err(TableError::Assoc);
                };
                prec = prec + 1;
                assert(wv[1] == ws@[1]@ && wv[2] == ws@[2]@ && wv[0] == ws@[0]@ && wv[3] == ws@[3]@);
                assert(assoc_of(wv[3]) == Some(assoc));
                db.push(SymData { name, layout: Layout { front, back }, prec, assoc });
                assert(sym_views(db.syms()) =~= before.push(Sym { name: wv[0], front: front as nat, back: back as nat, prec: prec as int, assoc }));
            } else {
                if db.len() == 0 {
                    return Err(TableError::FirstAssoc);
                }
                let assoc = db.symbols[db.symbols.len() - 1].assoc;
                assert(wv[1] == ws@[1]@ && wv[2] == ws@[2]@ && wv[0] == ws@[0]@);
                assert(before.last().assoc == assoc);
                db.push(SymData { name, layout: Layout { front, back }, prec, assoc });
                assert(sym_views(db.syms()) =~= before.push(Sym { name: wv[0], front: front as nat, back: back as nat, prec: prec as int, assoc }));
            }
            assert(sym_views(db.syms()) =~= before.push(sym_views(db.syms()).last()));
            i += 1;
        }
        Ok(db)
    }

    /// The declared names, in order.
    pub fn iter_names(&self) -> (r: IterNames<'_>)
        ensures
            r.rest() == self.syms(),
    {
        IterNames { syms: &self.symbols, next_idx: 0 }
    }

    /// Copies of the declared symbols, in order.
    pub fn iter(&self) -> (r: Iter<'_>)
        ensures
            r.rest() == self.syms(),
    {
        Iter { syms: &self.symbols, next_idx: 0 }
    }
}

/// Hands out the declared names one at a time.
pub struct IterNames<'a> {
    syms: &'a Vec<SymData>,
    next_idx: usize,
}

impl<'a> IterNames<'a> {
    pub closed spec fn rest(&self) -> Seq<SymData> {
        if self.next_idx <= self.syms@.len() {
            self.syms@.subrange(self.next_idx as int, self.syms@.len() as int)
        } else {
            Seq::empty()
        }
    }

    pub fn next(&mut self) -> (r: Option<&'a str>)
        ensures
            old(self).rest().len() == 0 ==> r is None,
            old(self).rest().len() > 0 ==> r is Some && r->Some_0@ == old(self).rest()[0].name@
                && final(self).rest() == old(self).rest().drop_first(),
    {
        if self.next_idx < self.syms.len() {
            let r = self.syms[self.next_idx].name.as_str();
            assert(old(self).rest()[0] == self.syms@[self.next_idx as int]);
            self.next_idx += 1;
            assert(final(self).rest() =~= old(self).rest().drop_first());
            Some(r)
        } else {
            None
        }
    }
}

/// Hands out copies of the declared symbols one at a time.
pub struct Iter<'a> {
    syms: &'a Vec<SymData>,
    next_idx: usize,
}

impl<'a> Iter<'a> {
    pub closed spec fn rest(&self) -> Seq<SymData> {
        if self.next_idx <= self.syms@.len() {
            self.syms@.subrange(self.next_idx as int, self.syms@.len() as int)
        } else {
            Seq::empty()
        }
    }

    pub fn next(&mut self) -> (r: Option<SymData>)
        ensures
            old(self).rest().len() == 0 ==> r is None,
            old(self).rest().len() > 0 ==> r is Some && sym_view(r->Some_0) == sym_view(old(self).rest()[0])
                && final(self).rest() == old(self).rest().drop_first(),
    {
        if self.next_idx < self.syms.len() {
            let r = self.syms[self.next_idx].duplicate();
            assert(old(self).rest()[0] == self.syms@[self.next_idx as int]);
            self.next_idx += 1;
            assert(final(self).rest() =~= old(self).rest().drop_first());
            Some(r)
        } else {
            None
        }
    }
}

} // verus!
