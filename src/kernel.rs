//! The proof kernel for first-order logic: an append-only list of proved
//! terms, free-variable analysis, capture-avoiding substitution and the
//! inference rules.
use vstd::prelude::*;
use crate::names::NameSet;
use crate::parser::{Parser, ParseError, parse_text, match_term};
use crate::sym::{SymData, SymDB, last_named};
use crate::tree::{Term, Tree, Subtree, branch, leaf};
use crate::util::{SplitWhitespace, parse_usize};
use crate::text::string_of;

verus! {

pub open spec fn is_quant(v: Seq<char>) -> bool {
    v == seq!['∀'] || v == seq!['∃']
}

/// Whether `v` names a variable: no declared symbol has that name.
pub open spec fn is_var(syms: Seq<SymData>, v: Seq<char>) -> bool {
    last_named(syms, v) is None
}

/// The free variables of `t` that are not in `except`: a leaf is free unless
/// excluded or declared; a quantifier excludes its binder from its body and
/// is not searched in the binder position.
pub open spec fn free_vars(syms: Seq<SymData>, t: Term<Seq<char>>, except: Set<Seq<char>>) -> Set<Seq<char>>
    decreases t, 0int,
{
    if t.children.len() == 0 {
        if !except.contains(t.value) && is_var(syms, t.value) {
            set![t.value]
        } else {
            Set::empty()
        }
    } else if is_quant(t.value) && t.children.len() >= 2 {
        free_vars(syms, t.children[1], except.insert(t.children[0].value))
    } else {
        free_vars_seq(syms, t.children, except, 0)
    }
}

/// The union of the free variables of `ts[i..]`.
pub open spec fn free_vars_seq(syms: Seq<SymData>, ts: Seq<Term<Seq<char>>>, except: Set<Seq<char>>, i: int) -> Set<
    Seq<char>,
>
    decreases ts, ts.len() - i,
{
    if i < 0 || i >= ts.len() {
        Set::empty()
    } else {
        free_vars(syms, ts[i], except).union(free_vars_seq(syms, ts, except, i + 1))
    }
}

/// `t` with the free occurrences of `var` replaced by `r`; `None` when an
/// occurrence lies under a binder in `bound` that is also in `fv`, the free
/// variables of `r`.
pub open spec fn subst(
    t: Term<Seq<char>>,
    var: Seq<char>,
    r: Term<Seq<char>>,
    fv: Set<Seq<char>>,
    bound: Set<Seq<char>>,
) -> Option<Term<Seq<char>>>
    decreases t, 0int,
{
    if t.children.len() == 0 {
        if t.value == var {
            if bound.disjoint(fv) {
                Some(r)
            } else {
                None
            }
        } else {
            Some(t)
        }
    } else if is_quant(t.value) && t.children.len() >= 2 {
        if t.children[0].value == var {
            Some(t)
        } else {
            match subst(t.children[1], var, r, fv, bound.insert(t.children[0].value)) {
                Some(b) => Some(branch(t.value, t.children.update(1, b))),
                None => None,
            }
        }
    } else {
        match subst_seq(t.children, var, r, fv, bound, 0) {
            Some(cs) => Some(branch(t.value, cs)),
            None => None,
        }
    }
}

/// `subst` on each of `ts[i..]`.
pub open spec fn subst_seq(
    ts: Seq<Term<Seq<char>>>,
    var: Seq<char>,
    r: Term<Seq<char>>,
    fv: Set<Seq<char>>,
    bound: Set<Seq<char>>,
    i: int,
) -> Option<Seq<Term<Seq<char>>>>
    decreases ts, ts.len() - i,
{
    if i < 0 || i >= ts.len() {
        Some(Seq::empty())
    } else {
        match subst(ts[i], var, r, fv, bound) {
            Some(a) => match subst_seq(ts, var, r, fv, bound, i + 1) {
                Some(rest) => Some(seq![a] + rest),
                None => None,
            },
            None => None,
        }
    }
}

/// Why an inference step failed.
#[derive(Debug, PartialEq, Eq)]
pub enum KernelError {
    /// No proved term has this id.
    UnknownId(usize),
    /// The implication's root is not `->` with two operands.
    WrongConnective,
    /// The antecedent differs from the implication's left operand.
    AntecedentMismatch,
    /// The term does not have the shape that the rule asks for.
    Mismatch,
    /// A declared operator name stands where a variable is required.
    InvalidVariable(String),
    /// The substitution would capture this free variable of the replacement.
    Capture(String),
    /// Text given to the kernel did not parse.
    Parse(ParseError),
}

pub open spec fn views_of(ts: Seq<Tree<String>>) -> Seq<Term<Seq<char>>> {
    ts.map_values(|t: Tree<String>| t.view_term())
}

/// The pattern that universal elimination matches: a forall node whose body is captured as `a`.
pub open spec fn elim_pattern() -> Seq<char> {
    seq!['_', ' ', '∀', ' ', '@', 'a']
}

/// The capture name of the body in `elim_pattern`.
pub open spec fn body_name() -> Seq<char> {
    seq!['a']
}

pub open spec fn paren(s: Seq<char>) -> Seq<char> {
    seq!['('] + s + seq![')']
}

/// The text of the distribution axiom instance
/// `(x∀ (p) -> (q)) -> (x∀(p)) -> (x∀(q))`.
pub open spec fn distr_text(x: Seq<char>, p: Seq<char>, q: Seq<char>) -> Seq<char> {
    seq!['('] + x + seq!['∀', ' '] + paren(p) + seq![' ', '-', '>', ' '] + paren(q) + seq![')', ' ', '-', '>', ' ', '(']
        + x + seq!['∀'] + paren(p) + seq![')', ' ', '-', '>', ' ', '('] + x + seq!['∀'] + paren(q) + seq![')']
}

pub open spec fn imp() -> Seq<char> {
    seq!['-', '>']
}

/// What modus ponens derives from `a` and `b`, or why it fails.
pub open spec fn mp_result(a: Term<Seq<char>>, b: Term<Seq<char>>) -> Result<Term<Seq<char>>, KernelError> {
    if b.value != imp() || b.children.len() < 2 {
        Err(KernelError::WrongConnective)
    } else if b.children[0] != a {
        Err(KernelError::AntecedentMismatch)
    } else {
        Ok(b.children[1])
    }
}

/// The terms of the lines `ls[i..]` up to the first line that does not
/// parse, blank lines skipped.
pub open spec fn loaded_prefix(syms: Seq<SymData>, ls: Seq<Seq<char>>, i: int) -> Seq<Term<Seq<char>>>
    decreases ls.len() - i,
{
    if i < 0 || i >= ls.len() {
        Seq::empty()
    } else if ls[i].len() == 0 {
        loaded_prefix(syms, ls, i + 1)
    } else {
        match parse_text(syms, ls[i]) {
            Ok(t) => seq![t] + loaded_prefix(syms, ls, i + 1),
            Err(_) => Seq::empty(),
        }
    }
}

/// The terms of the lines `ls[i..]`, blank lines skipped; the first line
/// that does not parse fails the whole load.
pub open spec fn load_from(syms: Seq<SymData>, ls: Seq<Seq<char>>, i: int) -> Result<Seq<Term<Seq<char>>>, ParseError>
    decreases ls.len() - i,
{
    if i < 0 || i >= ls.len() {
        Ok(Seq::empty())
    } else if ls[i].len() == 0 {
        load_from(syms, ls, i + 1)
    } else {
        match parse_text(syms, ls[i]) {
            Ok(t) => match load_from(syms, ls, i + 1) {
                Ok(ts) => Ok(seq![t] + ts),
                Err(e) => Err(e),
            },
            Err(e) => Err(e),
        }
    }
}


/// Whether `var` occurs free in `t`, as `subst` searches for it.
pub open spec fn occurs_free(t: Term<Seq<char>>, var: Seq<char>) -> bool
    decreases t, 0int,
{
    if t.children.len() == 0 {
        t.value == var
    } else if is_quant(t.value) && t.children.len() >= 2 {
        t.children[0].value != var && occurs_free(t.children[1], var)
    } else {
        occurs_free_seq(t.children, var, 0)
    }
}

/// Whether `var` occurs free in one of `ts[i..]`.
pub open spec fn occurs_free_seq(ts: Seq<Term<Seq<char>>>, var: Seq<char>, i: int) -> bool
    decreases ts, ts.len() - i,
{
    if i < 0 || i >= ts.len() {
        false
    } else {
        occurs_free(ts[i], var) || occurs_free_seq(ts, var, i + 1)
    }
}

/// A free occurrence of `var` under a binder that is free in the
/// replacement makes the substitution fail.
pub proof fn lemma_capture_fails(
    t: Term<Seq<char>>,
    var: Seq<char>,
    r: Term<Seq<char>>,
    fv: Set<Seq<char>>,
    bound: Set<Seq<char>>,
)
    requires
        occurs_free(t, var),
        !bound.disjoint(fv),
    ensures
        subst(t, var, r, fv, bound) is None,
    decreases t, 0int,
{
    if t.children.len() == 0 {
    } else if is_quant(t.value) && t.children.len() >= 2 {
        assert(!bound.insert(t.children[0].value).disjoint(fv));
        lemma_capture_fails(t.children[1], var, r, fv, bound.insert(t.children[0].value));
    } else {
        lemma_capture_fails_seq(t.children, var, r, fv, bound, 0);
    }
}

pub proof fn lemma_capture_fails_seq(
    ts: Seq<Term<Seq<char>>>,
    var: Seq<char>,
    r: Term<Seq<char>>,
    fv: Set<Seq<char>>,
    bound: Set<Seq<char>>,
    i: int,
)
    requires
        occurs_free_seq(ts, var, i),
        !bound.disjoint(fv),
    ensures
        subst_seq(ts, var, r, fv, bound, i) is None,
    decreases ts, ts.len() - i,
{
    if 0 <= i < ts.len() {
        if occurs_free(ts[i], var) {
            lemma_capture_fails(ts[i], var, r, fv, bound);
        } else {
            lemma_capture_fails_seq(ts, var, r, fv, bound, i + 1);
        }
    }
}

/// Capture avoidance: instantiating `var` in `x ∀ body`, where `var` is
/// free in `body` and `x` is free in the replacement, fails rather than
/// letting the binder capture `x`.
pub proof fn lemma_capture_avoidance(
    q: Seq<char>,
    x: Seq<char>,
    body: Term<Seq<char>>,
    var: Seq<char>,
    r: Term<Seq<char>>,
    fv: Set<Seq<char>>,
)
    requires
        is_quant(q),
        x != var,
        occurs_free(body, var),
        fv.contains(x),
    ensures
        subst(branch(q, seq![leaf(x), body]), var, r, fv, Set::empty()) is None,
{
    let t = branch(q, seq![leaf(x), body]);
    assert(t.children[0] == leaf(x));
    assert(t.children[1] == body);
    assert(Set::<Seq<char>>::empty().insert(x).contains(x));
    lemma_capture_fails(body, var, r, fv, Set::empty().insert(x));
}

/// Modus ponens is sound: from `P` and `P -> Q` it derives exactly `Q`,
/// and from any `P'` other than `P` it derives nothing.
pub proof fn lemma_mp_sound(p: Term<Seq<char>>, other: Term<Seq<char>>, q: Term<Seq<char>>)
    ensures
        mp_result(p, branch(imp(), seq![p, q])) == Ok::<Term<Seq<char>>, KernelError>(q),
        other != p ==> mp_result(other, branch(imp(), seq![p, q])) == Err::<Term<Seq<char>>, KernelError>(
            KernelError::AntecedentMismatch,
        ),
{
    let b = branch(imp(), seq![p, q]);
    assert(b.children[0] == p);
    assert(b.children[1] == q);
}


/// The printed lines of `ts`, one per term.
pub open spec fn printed(syms: Seq<SymData>, ts: Seq<Term<Seq<char>>>) -> Seq<Seq<char>> {
    ts.map_values(|t: Term<Seq<char>>| crate::sym::render(syms, t))
}

/// Saving and loading again gives back the same terms in the same order,
/// when each term prints as a non-blank line that parses back to that term.
pub proof fn lemma_save_load(syms: Seq<SymData>, ts: Seq<Term<Seq<char>>>)
    requires
        forall|i: int|
            0 <= i < ts.len() ==> crate::sym::render(syms, #[trigger] ts[i]).len() > 0 && parse_text(
                syms,
                crate::sym::render(syms, ts[i]),
            ) == Ok::<Term<Seq<char>>, ParseError>(ts[i]),
    ensures
        load_from(syms, printed(syms, ts), 0) == Ok::<Seq<Term<Seq<char>>>, ParseError>(ts),
{
    lemma_load_from(syms, ts, 0);
    assert(ts.subrange(0, ts.len() as int) =~= ts);
}

proof fn lemma_load_from(syms: Seq<SymData>, ts: Seq<Term<Seq<char>>>, i: int)
    requires
        0 <= i <= ts.len(),
        forall|j: int|
            0 <= j < ts.len() ==> crate::sym::render(syms, #[trigger] ts[j]).len() > 0 && parse_text(
                syms,
                crate::sym::render(syms, ts[j]),
            ) == Ok::<Term<Seq<char>>, ParseError>(ts[j]),
    ensures
        load_from(syms, printed(syms, ts), i) == Ok::<Seq<Term<Seq<char>>>, ParseError>(ts.subrange(i, ts.len() as int)),
    decreases ts.len() - i,
{
    if i < ts.len() {
        lemma_load_from(syms, ts, i + 1);
        let ls = printed(syms, ts);
        assert(ls[i] == crate::sym::render(syms, ts[i]));
        assert(seq![ts[i]] + ts.subrange(i + 1, ts.len() as int) =~= ts.subrange(i, ts.len() as int));
    } else {
        assert(ts.subrange(i, ts.len() as int) =~= Seq::<Term<Seq<char>>>::empty());
    }
}

/// What the caller of `System::command` is to do next.
#[derive(Debug, PartialEq, Eq)]
pub enum Outcome {
    /// The line was empty.
    Nothing,
    /// Print every proved term.
    Show,
    /// Write the proved terms to the named file.
    Save(String),
    /// Replace the proved terms by those of the named file.
    Load(String),
    /// A rule proved a new term with this id; print it.
    Derived(usize),
}

/// The text that describes `e`.
pub open spec fn kernel_message(e: KernelError) -> Seq<char> {
    match e {
        KernelError::UnknownId(id) => "there is no proof with ID "@ + crate::text::dec_string(id as nat),
        KernelError::WrongConnective => "a mismatched form '[a] -> [b]'"@,
        KernelError::AntecedentMismatch => "a mismatched pattern '[a], [a] -> [b]'"@,
        KernelError::Mismatch => "the proof does not have the form the rule needs"@,
        KernelError::InvalidVariable(v) => "invalid variable name: "@ + v@,
        KernelError::Capture(v) => "captured free variable: "@ + v@,
        KernelError::Parse(p) => crate::parser::parse_message(p),
    }
}

impl KernelError {
    pub fn message(&self) -> (r: String)
        ensures
            r@ == kernel_message(*self),
    {
        match self {
            KernelError::UnknownId(id) => {
                let mut m = "there is no proof with ID ".to_owned();
                crate::text::push_decimal(&mut m, *id);
                m
            },
            KernelError::WrongConnective => "a mismatched form '[a] -> [b]'".to_owned(),
            KernelError::AntecedentMismatch => "a mismatched pattern '[a], [a] -> [b]'".to_owned(),
            KernelError::Mismatch => "the proof does not have the form the rule needs".to_owned(),
            KernelError::InvalidVariable(v) => {
                let mut m = "invalid variable name: ".to_owned();
                crate::text::push_all(&mut m, v.as_str());
                m
            },
            KernelError::Capture(v) => {
                let mut m = "captured free variable: ".to_owned();
                crate::text::push_all(&mut m, v.as_str());
                m
            },
            KernelError::Parse(e) => e.message().to_owned(),
        }
    }
}

/// The abstract value of an `Outcome`.
pub enum Act {
    Nothing,
    Show,
    Save(Seq<char>),
    Load(Seq<char>),
    Derived(nat),
}

impl Outcome {
    pub open spec fn view(&self) -> Act {
        match self {
            Outcome::Nothing => Act::Nothing,
            Outcome::Show => Act::Show,
            Outcome::Save(f) => Act::Save(f@),
            Outcome::Load(f) => Act::Load(f@),
            Outcome::Derived(id) => Act::Derived(*id as nat),
        }
    }
}

/// A command line, read into its parts.
pub enum Cmd {
    /// A blank line.
    Nothing,
    Show,
    Save(Seq<char>),
    Load(Seq<char>),
    /// Modus ponens on two ids.
    Mp(nat, nat),
    /// Instantiation: an id, a variable, and the text of the replacement.
    Inst(nat, Seq<char>, Seq<char>),
    /// A known command with missing or malformed arguments, and its message.
    Fail(Seq<char>),
    /// An unknown first word.
    Unknown(Seq<char>),
}

/// Reads a command line: `show`, `save [file]`, `load [file]` (the file
/// defaults to `default.txt`), `mp <id> <id>`, or `inst <id> <variable> <term>`.
/// `mp` answers `E1`/`E2` to a missing id and `E3`/`E4` to one that is not a
/// number; `inst` answers an empty message to a missing or malformed argument.
pub open spec fn read_command(s: Seq<char>) -> Cmd {
    let (w1, r1) = crate::util::next_word(s);
    match w1 {
        None => Cmd::Nothing,
        Some(c) => if c == "show"@ {
            Cmd::Show
        } else if c == "save"@ || c == "load"@ {
            let f = match crate::util::next_word(r1).0 {
                Some(f) => f,
                None => "default.txt"@,
            };
            if c == "save"@ {
                Cmd::Save(f)
            } else {
                Cmd::Load(f)
            }
        } else if c == "mp"@ {
            let (w2, r2) = crate::util::next_word(r1);
            match w2 {
                None => Cmd::Fail("E1"@),
                Some(x) => match crate::util::next_word(r2).0 {
                    None => Cmd::Fail("E2"@),
                    Some(y) => match crate::sym::parse_num(x) {
                        None => Cmd::Fail("E3"@),
                        Some(a) => match crate::sym::parse_num(y) {
                            None => Cmd::Fail("E4"@),
                            Some(b) => Cmd::Mp(a, b),
                        },
                    },
                },
            }
        } else if c == "inst"@ {
            let (w2, r2) = crate::util::next_word(r1);
            match w2 {
                None => Cmd::Fail(""@),
                Some(x) => match crate::sym::parse_num(x) {
                    None => Cmd::Fail(""@),
                    Some(id) => {
                        let (w3, r3) = crate::util::next_word(r2);
                        match w3 {
                            None => Cmd::Fail(""@),
                            Some(v) => Cmd::Inst(id, v, r3),
                        }
                    },
                },
            }
        } else {
            Cmd::Unknown(c)
        },
    }
}

/// Modus ponens on the proved terms `ps`, ids checked first.
pub open spec fn mp_step(ps: Seq<Term<Seq<char>>>, a: nat, b: nat) -> Result<Term<Seq<char>>, KernelError> {
    if a >= ps.len() {
        Err(KernelError::UnknownId(a as usize))
    } else if b >= ps.len() {
        Err(KernelError::UnknownId(b as usize))
    } else {
        mp_result(ps[a as int], ps[b as int])
    }
}

/// Whether `r` is the outcome `want`.
pub open spec fn answers(r: Result<Outcome, String>, want: Result<Act, Seq<char>>) -> bool {
    match want {
        Ok(a) => r matches Ok(o) && o.view() == a,
        Err(m) => r matches Err(x) && x@ == m,
    }
}

/// What a command other than `inst` does: its answer, and the proved terms
/// `after` it given those `before` it.
pub open spec fn command_effect(
    before: Seq<Term<Seq<char>>>,
    after: Seq<Term<Seq<char>>>,
    c: Cmd,
    r: Result<Outcome, String>,
) -> bool {
    match c {
        Cmd::Nothing => answers(r, Ok(Act::Nothing)) && after == before,
        Cmd::Show => answers(r, Ok(Act::Show)) && after == before,
        Cmd::Save(f) => answers(r, Ok(Act::Save(f))) && after == before,
        Cmd::Load(f) => answers(r, Ok(Act::Load(f))) && after == before,
        Cmd::Fail(m) => answers(r, Err(m)) && after == before,
        Cmd::Unknown(w) => answers(r, Err("unknown command: "@ + w)) && after == before,
        Cmd::Mp(a, b) => match mp_step(before, a, b) {
            Ok(q) => answers(r, Ok(Act::Derived(before.len()))) && after == before.push(q),
            Err(e) => answers(r, Err(kernel_message(e))) && after == before,
        },
        Cmd::Inst(_, _, _) => true,
    }
}

/// What `inst <id> <var> <text>` does in the first-order kernel.
pub open spec fn inst_effect(
    syms: Seq<SymData>,
    before: Seq<Term<Seq<char>>>,
    after: Seq<Term<Seq<char>>>,
    id: nat,
    var: Seq<char>,
    text: Seq<char>,
    r: Result<Outcome, String>,
) -> bool {
    match parse_text(syms, text) {
        Err(_) => answers(r, Err(""@)) && after == before,
        Ok(rep) => if id >= before.len() {
            answers(r, Err(kernel_message(KernelError::UnknownId(id as usize)))) && after == before
        } else {
            let fv = free_vars(syms, rep, Set::empty());
            match subst(before[id as int], var, rep, fv, Set::empty()) {
                Some(t) => answers(r, Ok(Act::Derived(before.len()))) && after == before.push(t),
                None => (exists|b: Seq<char>| fv.contains(b) && answers(r, Err("captured free variable: "@ + b)))
                    && after == before,
            }
        },
    }
}

/// Whether `w` is the word `cs`.
fn word_is(w: &String, cs: Vec<char>) -> (r: bool)
    ensures
        r == (w@ == cs@),
{
    *w == string_of(cs.as_slice())
}

/// Whether `v` is the single character `c`.
fn is_char(v: &String, c: char) -> (r: bool)
    ensures
        r == (v@ == seq![c]),
{
    let cs = crate::text::chars_of(v.as_str());
    if cs.len() == 1 && cs[0] == c {
        assert(cs@ =~= seq![c]);
        true
    } else {
        false
    }
}

fn is_quantifier(v: &String) -> (r: bool)
    ensures
        r == is_quant(v@),
{
    is_char(v, '∀') || is_char(v, '∃')
}

/// The proof kernel: the proved terms, in the order they were proved, and
/// the parser that reads new ones.
pub struct System {
    proofs: Vec<Tree<String>>,
    parser: Parser,
}

impl System {
    /// The proved terms; the index of each is its id.
    pub closed spec fn proved(&self) -> Seq<Term<Seq<char>>> {
        views_of(self.proofs@)
    }

    /// The operator table.
    pub closed spec fn syms(&self) -> Seq<SymData> {
        self.parser.syms()
    }

    pub closed spec fn wf(&self) -> bool {
        &&& self.parser.wf()
        &&& forall|i: int| 0 <= i < self.proofs@.len() ==> (#[trigger] self.proofs@[i]).wf()
    }

    /// A kernel with no proved terms, reading text under `syms`.
    pub fn new(syms: SymDB) -> (r: Self)
        ensures
            r.wf(),
            r.proved() == Seq::<Term<Seq<char>>>::empty(),
            r.syms() == syms.syms(),
    {
        let r = System { proofs: Vec::new(), parser: Parser::new(syms) };
        assert(r.proved() =~= Seq::<Term<Seq<char>>>::empty());
        r
    }

    pub fn len(&self) -> (r: usize)
        ensures
            r == self.proved().len(),
    {
        self.proofs.len()
    }

    /// The proved term with id `id`.
    pub fn get(&self, id: usize) -> (r: Option<&Tree<String>>)
        requires
            self.wf(),
        ensures
            id < self.proved().len() ==> r is Some && r->Some_0.wf() && r->Some_0.view_term() == self.proved()[id as int],
            id >= self.proved().len() ==> r is None,
    {
        if id < self.proofs.len() {
            Some(&self.proofs[id])
        } else {
            None
        }
    }

    pub(crate) fn append(&mut self, t: Tree<String>) -> (id: usize)
        requires
            old(self).wf(),
            t.wf(),
        ensures
            final(self).wf(),
            id == old(self).proved().len(),
            final(self).proved() == old(self).proved().push(t.view_term()),
            final(self).syms() == old(self).syms(),
    {
        let id = self.proofs.len();
        let ghost before = self.proofs@;
        self.proofs.push(t);
        assert(views_of(self.proofs@) =~= views_of(before).push(t.view_term()));
        id
    }

    /// Adds the free variables of the term below `form`, less those in
    /// `except`, to `fvs`.
    pub fn free_variables_sub(&self, form: Subtree<'_, String>, fvs: &mut NameSet, except: &NameSet)
        requires
            self.wf(),
        ensures
            final(fvs).view() == old(fvs).view().union(free_vars(self.syms(), form.term(), except.view())),
        decreases form.tree().slots() - form.at(),
    {
        let v = form.get_root();
        if form.is_leaf() {
            if !except.contains(v.as_str()) && self.parser.symdb().is_variable(v.as_str()) {
                fvs.insert(v.as_str());
                assert(old(fvs).view().insert(v@) =~= old(fvs).view().union(set![v@]));
            } else {
                assert(old(fvs).view() =~= old(fvs).view().union(Set::empty()));
            }
            return;
        }
        let n = form.children_len();
        if is_quantifier(v) && n >= 2 {
            let mut inner = except.duplicate();
            inner.insert(form.child(0).get_root().as_str());
            self.free_variables_sub(form.child(1), fvs, &inner);
            return;
        }
        let ghost ts = form.term().children;
        let ghost ex = except.view();
        let mut i: usize = 0;
        assert(old(fvs).view() =~= fvs.view());
        while i < n
            invariant
                i <= n,
                n == ts.len(),
                ts == form.term().children,
                ex == except.view(),
                self.wf(),
                old(fvs).view().union(free_vars_seq(self.syms(), ts, ex, 0)) == fvs.view().union(
                    free_vars_seq(self.syms(), ts, ex, i as int),
                ),
            decreases n - i,
        {
            let ghost before = fvs.view();
            self.free_variables_sub(form.child(i), fvs, except);
            assert(before.union(free_vars_seq(self.syms(), ts, ex, i as int)) =~= fvs.view().union(
                free_vars_seq(self.syms(), ts, ex, i + 1),
            ));
            i += 1;
        }
        assert(fvs.view().union(free_vars_seq(self.syms(), ts, ex, n as int)) =~= fvs.view());
    }

    /// The free variables of the term below `form`.
    pub fn free_variables(&self, form: Subtree<'_, String>) -> (r: NameSet)
        requires
            self.wf(),
        ensures
            r.view() == free_vars(self.syms(), form.term(), Set::empty()),
    {
        let mut fvs = NameSet::new();
        let except = NameSet::new();
        self.free_variables_sub(form, &mut fvs, &except);
        assert(Set::<Seq<char>>::empty().union(free_vars(self.syms(), form.term(), Set::empty()))
            =~= free_vars(self.syms(), form.term(), Set::empty()));
        fvs
    }

    /// Appends under `parent` of `out` the term below `form` with the free
    /// occurrences of `var` replaced by the term below `rep`, as `subst` says;
    /// `fvs` holds the free variables of the replacement, `binders` the
    /// binders around `form`. On a capture, names the captured variable.
    pub fn replace_var(
        &self,
        out: &mut Tree<String>,
        parent: usize,
        form: Subtree<'_, String>,
        var: &String,
        rep: Subtree<'_, String>,
        fvs: &NameSet,
        binders: &NameSet,
    ) -> (r: Result<usize, String>)
        requires
            old(out).wf(),
            old(out).has(parent),
        ensures
            final(out).wf(),
            match subst(form.term(), var@, rep.term(), fvs.view(), binders.view()) {
                Some(t) => r is Ok && Tree::appended(&*old(out), &*final(out), parent, r->Ok_0)
                    && final(out).term(r->Ok_0) == t,
                None => r is Err,
            },
            r matches Err(b) ==> fvs.view().contains(b@),
        decreases form.tree().slots() - form.at(),
    {
        let v = form.get_root();
        if form.is_leaf() {
            if *v == *var {
                match binders.find_common(fvs) {
                    Some(b) => {
                        return Err(b);
                    },
                    None => {
                        return Ok(out.push_copy(parent, rep));
                    },
                }
            }
            return Ok(out.push_copy(parent, form));
        }
        let len = form.children_len();
        let ghost t = form.term();
        if is_quantifier(v) && len >= 2 {
            let c0 = form.child(0);
            if *c0.get_root() == *var {
                return Ok(out.push_copy(parent, form));
            }
            let mut inner = binders.duplicate();
            inner.insert(c0.get_root().as_str());
            let ghost t0 = *out;
            let n = out.push(parent, v.clone());
            let ghost t1 = *out;
            proof {
                Tree::lemma_term(&t1, n);
            }
            let m0 = out.push_copy(n, c0);
            let ghost t2 = *out;
            proof {
                Tree::lemma_append_step(&t0, &t1, &t2, parent, n, m0);
            }
            let m1 = match self.replace_var(out, n, form.child(1), var, rep, fvs, &inner) {
                Ok(m) => m,
                Err(b) => {
                    return Err(b);
                },
            };
            let ghost body = out.term(m1);
            let ghost t3 = *out;
            proof {
                Tree::lemma_append_step(&t0, &t2, &t3, parent, n, m1);
                assert(t3.term(n).children =~= seq![t.children[0], body]);
                assert(t.children.update(1, body).subrange(0, 2) =~= seq![t.children[0], body]);
                assert(t3.term(n) == branch(t.value, t.children.update(1, body).subrange(0, 2)));
            }
            let mut i: usize = 2;
            while i < len
                invariant
                    2 <= i <= len,
                    len == t.children.len(),
                    t == form.term(),
                    t0.wf(),
                    t0.has(parent),
                    Tree::appended(&t0, &*out, parent, n),
                    out.term(n) == branch(t.value, t.children.update(1, body).subrange(0, i as int)),
                decreases len - i,
            {
                let ghost ta = *out;
                let m = out.push_copy(n, form.child(i));
                proof {
                    Tree::lemma_append_step(&t0, &ta, &*out, parent, n, m);
                    assert(out.term(n).children =~= t.children.update(1, body).subrange(0, i + 1));
                }
                i += 1;
            }
            assert(t.children.update(1, body).subrange(0, len as int) =~= t.children.update(1, body));
            return Ok(n);
        }
        let ghost t0 = *out;
        let n = out.push(parent, v.clone());
        let ghost ts = t.children;
        let ghost goal = subst_seq(ts, var@, rep.term(), fvs.view(), binders.view(), 0);
        proof {
            Tree::lemma_term(&*out, n);
            assert(out.term(n).children + match subst_seq(ts, var@, rep.term(), fvs.view(), binders.view(), 0) {
                Some(rest) => rest,
                None => Seq::empty(),
            } =~= match subst_seq(ts, var@, rep.term(), fvs.view(), binders.view(), 0) {
                Some(rest) => rest,
                None => Seq::empty(),
            });
        }
        let mut i: usize = 0;
        while i < len
            invariant
                i <= len,
                len == ts.len(),
                ts == form.term().children,
                t == form.term(),
                t0.wf(),
                t0.has(parent),
                out.wf(),
                !(is_quant(t.value) && t.children.len() >= 2),
                t.children.len() > 0,
                Tree::appended(&t0, &*out, parent, n),
                out.term(n).value == t.value,
                out.term(n).children.len() == i,
                goal == subst_seq(ts, var@, rep.term(), fvs.view(), binders.view(), 0),
                goal == match subst_seq(ts, var@, rep.term(), fvs.view(), binders.view(), i as int) {
                    Some(rest) => Some(out.term(n).children + rest),
                    None => None,
                },
            decreases len - i,
        {
            let ghost ta = *out;
            let m = match self.replace_var(out, n, form.child(i), var, rep, fvs, binders) {
                Ok(m) => m,
                Err(b) => {
                    assert(subst_seq(ts, var@, rep.term(), fvs.view(), binders.view(), i as int) is None);
                    return Err(b);
                },
            };
            proof {
                Tree::lemma_append_step(&t0, &ta, &*out, parent, n, m);
                let a = out.term(m);
                match subst_seq(ts, var@, rep.term(), fvs.view(), binders.view(), i + 1) {
                    Some(rest) => {
                        assert(ta.term(n).children + (seq![a] + rest) =~= out.term(n).children + rest);
                    },
                    None => {},
                }
            }
            i += 1;
        }
        assert(out.term(n).children + Seq::<Term<Seq<char>>>::empty() =~= out.term(n).children);
        assert(out.term(n) =~= branch(t.value, out.term(n).children));
        Ok(n)
    }

    /// Instantiates `var` in proof `id` with the term below `replace`, avoiding
    /// capture, and appends the result.
    pub fn inst(&mut self, id: usize, var: &str, replace: Subtree<'_, String>) -> (r: Result<usize, KernelError>)
        requires
            old(self).wf(),
        ensures
            final(self).wf(),
            final(self).syms() == old(self).syms(),
            id >= old(self).proved().len() ==> r == Err::<usize, KernelError>(KernelError::UnknownId(id))
                && final(self).proved() == old(self).proved(),
            id < old(self).proved().len() ==> {
                let fv = free_vars(old(self).syms(), replace.term(), Set::empty());
                match subst(old(self).proved()[id as int], var@, replace.term(), fv, Set::empty()) {
                    Some(t) => (r matches Ok(n) && n == old(self).proved().len())
                        && final(self).proved() == old(self).proved().push(t),
                    None => (r matches Err(KernelError::Capture(b)) && fv.contains(b@))
                        && final(self).proved() == old(self).proved(),
                }
            },
    {
        if id >= self.proofs.len() {
            return Err(KernelError::UnknownId(id));
        }
        let fvs = self.free_variables(replace);
        let binders = NameSet::new();
        let var_s = var.to_owned();
        let mut out = Tree::new(String::new());
        let res = self.replace_var(&mut out, 0, self.proofs[id].subtree_root(), &var_s, replace, &fvs, &binders);
        match res {
            Ok(n) => {
                let t = out.clone_sub(n);
                Ok(self.append(t))
            },
            Err(b) => Err(KernelError::Capture(b)),
        }
    }

    /// Universal elimination: when proof `id` matches `_ ∀ @a`, appends the body.
    pub fn uq_elim(&mut self, id: usize) -> (r: Result<usize, KernelError>)
        requires
            old(self).wf(),
        ensures
            final(self).wf(),
            final(self).syms() == old(self).syms(),
            id >= old(self).proved().len() ==> r == Err::<usize, KernelError>(KernelError::UnknownId(id))
                && final(self).proved() == old(self).proved(),
            id < old(self).proved().len() ==> match parse_text(old(self).syms(), elim_pattern()) {
                Err(e) => r == Err::<usize, KernelError>(KernelError::Parse(e)) && final(self).proved() == old(self).proved(),
                Ok(p) => match match_term(old(self).proved()[id as int], p, Map::empty()) {
                    Some(b) => if b.contains_key(body_name()) {
                        (r matches Ok(n) && n == old(self).proved().len())
                            && final(self).proved() == old(self).proved().push(b[body_name()])
                    } else {
                        r == Err::<usize, KernelError>(KernelError::Mismatch) && final(self).proved() == old(self).proved()
                    },
                    None => r == Err::<usize, KernelError>(KernelError::Mismatch) && final(self).proved() == old(self).proved(),
                },
            },
    {
        if id >= self.proofs.len() {
            return Err(KernelError::UnknownId(id));
        }
        let pv = vec!['_', ' ', '∀', ' ', '@', 'a'];
        let pat = crate::text::string_of(pv.as_slice());
        assert(pat@ =~= elim_pattern());
        let map = match self.parser.pattern_match(self.proofs[id].subtree_root(), pat.as_str()) {
            Ok(m) => m,
            Err(crate::parser::MatchError::Parse(e)) => {
                return Err(KernelError::Parse(e));
            },
            Err(crate::parser::MatchError::Mismatch) => {
                return Err(KernelError::Mismatch);
            },
        };
        let av = vec!['a'];
        let a = crate::text::string_of(av.as_slice());
        assert(a@ =~= body_name());
        let inner = match map.get(a.as_str()) {
            Some(t) => t.clone_sub(t.root_id()),
            None => {
                return Err(KernelError::Mismatch);
            },
        };
        Ok(self.append(inner))
    }

    /// Universal introduction: appends `var ∀ P` for proof `id` = `P`.
    pub fn uq_intr(&mut self, id: usize, var: &str) -> (r: Result<usize, KernelError>)
        requires
            old(self).wf(),
        ensures
            final(self).wf(),
            final(self).syms() == old(self).syms(),
            id >= old(self).proved().len() ==> r == Err::<usize, KernelError>(KernelError::UnknownId(id))
                && final(self).proved() == old(self).proved(),
            id < old(self).proved().len() && !is_var(old(self).syms(), var@) ==> (r matches Err(
                KernelError::InvalidVariable(v),
            ) && v@ == var@) && final(self).proved() == old(self).proved(),
            id < old(self).proved().len() && is_var(old(self).syms(), var@) ==> (r matches Ok(n) && n == old(self).proved().len())
                && final(self).proved() == old(self).proved().push(
                    branch(seq!['∀'], seq![leaf(var@), old(self).proved()[id as int]]),
                ),
    {
        if id >= self.proofs.len() {
            return Err(KernelError::UnknownId(id));
        }
        if !self.parser.symdb().is_variable(var) {
            return Err(KernelError::InvalidVariable(var.to_owned()));
        }
        let fv = vec!['∀'];
        let name = crate::text::string_of(fv.as_slice());
        assert(name@ =~= seq!['∀']);
        let mut t = Tree::new(name);
        t.push(0, var.to_owned());
        t.push_sub(0, self.proofs[id].subtree_root());
        assert(t.view_term().children =~= seq![leaf(var@), old(self).proved()[id as int]]);
        Ok(self.append(t))
    }

    /// Modus ponens: from proof `id_antec` = `P` and proof `id_imply` = `P -> Q`, appends `Q`.
    pub fn mp(&mut self, id_antec: usize, id_imply: usize) -> (r: Result<usize, KernelError>)
        requires
            old(self).wf(),
        ensures
            final(self).wf(),
            final(self).syms() == old(self).syms(),
            id_antec >= old(self).proved().len() ==> r == Err::<usize, KernelError>(KernelError::UnknownId(id_antec))
                && final(self).proved() == old(self).proved(),
            id_antec < old(self).proved().len() && id_imply >= old(self).proved().len() ==> r == Err::<usize, KernelError>(
                KernelError::UnknownId(id_imply),
            ) && final(self).proved() == old(self).proved(),
            id_antec < old(self).proved().len() && id_imply < old(self).proved().len() ==> match mp_result(
                old(self).proved()[id_antec as int],
                old(self).proved()[id_imply as int],
            ) {
                Ok(q) => (r matches Ok(n) && n == old(self).proved().len()) && final(self).proved()
                    == old(self).proved().push(q),
                Err(e) => r == Err::<usize, KernelError>(e) && final(self).proved() == old(self).proved(),
            },
    {
        if id_antec >= self.proofs.len() {
            return Err(KernelError::UnknownId(id_antec));
        }
        if id_imply >= self.proofs.len() {
            return Err(KernelError::UnknownId(id_imply));
        }
        let imply = self.proofs[id_imply].subtree_root();
        let iv = vec!['-', '>'];
        let arrow = crate::text::string_of(iv.as_slice());
        assert(arrow@ =~= imp());
        if *imply.get_root() != arrow || imply.children_len() < 2 {
            return Err(KernelError::WrongConnective);
        }
        let antecedent = imply.child(0);
        if !crate::tree::subtree_eq(self.proofs[id_antec].subtree_root(), antecedent) {
            return Err(KernelError::AntecedentMismatch);
        }
        let consequent = imply.child(1).to_owned();
        Ok(self.append(consequent))
    }

    /// Appends the distribution axiom instance for `var`, `form1` and
    /// `form2`, parsed from its text.
    pub fn uq_distr(&mut self, var: &str, form1: &str, form2: &str) -> (r: Result<usize, KernelError>)
        requires
            old(self).wf(),
        ensures
            final(self).wf(),
            final(self).syms() == old(self).syms(),
            !is_var(old(self).syms(), var@) ==> (r matches Err(KernelError::InvalidVariable(v)) && v@ == var@)
                && final(self).proved() == old(self).proved(),
            is_var(old(self).syms(), var@) ==> match parse_text(old(self).syms(), distr_text(var@, form1@, form2@)) {
                Ok(t) => (r matches Ok(n) && n == old(self).proved().len()) && final(self).proved()
                    == old(self).proved().push(t),
                Err(e) => r == Err::<usize, KernelError>(KernelError::Parse(e)) && final(self).proved() == old(self).proved(),
            },
    {
        if !self.parser.symdb().is_variable(var) {
            return Err(KernelError::InvalidVariable(var.to_owned()));
        }
        let mut s = String::new();
        let a = vec!['('];
        let b = vec!['∀', ' '];
        let c = vec![' ', '-', '>', ' '];
        let d = vec![')', ' ', '-', '>', ' ', '('];
        let e = vec!['∀'];
        let f = vec![')'];
        let mut p = String::new();
        crate::text::push_char(&mut p, '(');
        crate::text::push_all(&mut p, form1);
        crate::text::push_char(&mut p, ')');
        let mut q = String::new();
        crate::text::push_char(&mut q, '(');
        crate::text::push_all(&mut q, form2);
        crate::text::push_char(&mut q, ')');
        crate::text::push_all(&mut s, crate::text::string_of(a.as_slice()).as_str());
        crate::text::push_all(&mut s, var);
        crate::text::push_all(&mut s, crate::text::string_of(b.as_slice()).as_str());
        crate::text::push_all(&mut s, p.as_str());
        crate::text::push_all(&mut s, crate::text::string_of(c.as_slice()).as_str());
        crate::text::push_all(&mut s, q.as_str());
        crate::text::push_all(&mut s, crate::text::string_of(d.as_slice()).as_str());
        crate::text::push_all(&mut s, var);
        crate::text::push_all(&mut s, crate::text::string_of(e.as_slice()).as_str());
        crate::text::push_all(&mut s, p.as_str());
        crate::text::push_all(&mut s, crate::text::string_of(d.as_slice()).as_str());
        crate::text::push_all(&mut s, var);
        crate::text::push_all(&mut s, crate::text::string_of(e.as_slice()).as_str());
        crate::text::push_all(&mut s, q.as_str());
        crate::text::push_all(&mut s, crate::text::string_of(f.as_slice()).as_str());
        assert(p@ =~= paren(form1@));
        assert(q@ =~= paren(form2@));
        assert(s@ =~= distr_text(var@, form1@, form2@));
        match self.parser.parse(s.as_str()) {
            Ok(t) => Ok(self.append(t)),
            Err(e) => Err(KernelError::Parse(e)),
        }
    }

    /// Replaces the proved terms by those of `lines`, one term per line,
    /// blank lines skipped. On a line that does not parse, the terms before
    /// it stay loaded and the rest are lost.
    pub fn load_lines(&mut self, lines: &Vec<String>) -> (r: Result<(), ParseError>)
        requires
            old(self).wf(),
        ensures
            final(self).wf(),
            final(self).syms() == old(self).syms(),
            match load_from(old(self).syms(), crate::names::name_views(lines@), 0) {
                Ok(ts) => r is Ok && final(self).proved() == ts,
                Err(e) => r == Err::<(), ParseError>(e),
            },
            final(self).proved() == loaded_prefix(old(self).syms(), crate::names::name_views(lines@), 0),
    {
        let ghost ls = crate::names::name_views(lines@);
        let ghost goal = load_from(self.syms(), ls, 0);
        self.proofs = Vec::new();
        assert(self.proved() =~= Seq::<Term<Seq<char>>>::empty());
        assert(goal == match load_from(self.syms(), ls, 0) {
            Ok(ts) => Ok(self.proved() + ts),
            Err(e) => Err::<Seq<Term<Seq<char>>>, ParseError>(e),
        }) by {
            match load_from(self.syms(), ls, 0) {
                Ok(ts) => {
                    assert(self.proved() + ts =~= ts);
                },
                Err(e) => {},
            }
        }
        proof {
            assert(loaded_prefix(old(self).syms(), ls, 0) =~= self.proved() + loaded_prefix(self.syms(), ls, 0));
        }
        let mut i: usize = 0;
        while i < lines.len()
            invariant
                i <= lines@.len(),
                ls == crate::names::name_views(lines@),
                self.wf(),
                self.syms() == old(self).syms(),
                goal == load_from(old(self).syms(), ls, 0),
                goal == match load_from(self.syms(), ls, i as int) {
                    Ok(ts) => Ok(self.proved() + ts),
                    Err(e) => Err::<Seq<Term<Seq<char>>>, ParseError>(e),
                },
                loaded_prefix(old(self).syms(), ls, 0) == self.proved() + loaded_prefix(self.syms(), ls, i as int),
            decreases lines@.len() - i,
        {
            assert(ls[i as int] == lines@[i as int]@);
            if lines[i].as_str().unicode_len() > 0 {
                match self.parser.parse(lines[i].as_str()) {
                    Ok(t) => {
                        let ghost before = self.proved();
                        self.append(t);
                        proof {
                            assert(before + loaded_prefix(self.syms(), ls, i as int) =~= self.proved() + loaded_prefix(self.syms(), ls, i + 1));
                            match load_from(self.syms(), ls, i + 1) {
                                Ok(ts) => {
                                    assert(before + (seq![t.view_term()] + ts) =~= self.proved() + ts);
                                },
                                Err(e) => {},
                            }
                        }
                    },
                    Err(e) => {
                        assert(self.proved() + loaded_prefix(self.syms(), ls, i as int) =~= self.proved());
                        return Err(e);
                    },
                }
            }
            i += 1;
        }
        assert(self.proved() + Seq::<Term<Seq<char>>>::empty() =~= self.proved());
        assert(self.proved() + loaded_prefix(self.syms(), ls, i as int) =~= self.proved());
        Ok(())
    }

    /// Each proved term printed with as few parentheses as the table allows, in id order.
    pub fn saved_lines(&self) -> (r: Vec<String>)
        requires
            self.wf(),
        ensures
            r@.len() == self.proved().len(),
            forall|i: int| 0 <= i < r@.len() ==> (#[trigger] r@[i])@ == crate::sym::render(self.syms(), self.proved()[i]),
    {
        let mut r: Vec<String> = Vec::new();
        let mut i: usize = 0;
        while i < self.proofs.len()
            invariant
                i <= self.proofs@.len(),
                self.wf(),
                r@.len() == i,
                forall|j: int| 0 <= j < i ==> (#[trigger] r@[j])@ == crate::sym::render(self.syms(), self.proved()[j]),
            decreases self.proofs@.len() - i,
        {
            r.push(self.parser.symdb().ast_to_string_minimal(&self.proofs[i]));
            i += 1;
        }
        r
    }

    /// Proof `id` printed with as few parentheses as the table allows.
    pub fn show_proof(&self, id: usize) -> (r: Option<String>)
        requires
            self.wf(),
        ensures
            id < self.proved().len() ==> r is Some && r->Some_0@ == crate::sym::render(self.syms(), self.proved()[id as int]),
            id >= self.proved().len() ==> r is None,
    {
        if id < self.proofs.len() {
            Some(self.parser.symdb().ast_to_string_minimal(&self.proofs[id]))
        } else {
            None
        }
    }

    /// Carries out one command line, as `read_command` reads it. The rules
    /// run here; printing and files are left to the caller, as the outcome says.
    pub fn command(&mut self, s: &str) -> (r: Result<Outcome, String>)
        requires
            old(self).wf(),
        ensures
            final(self).wf(),
            final(self).syms() == old(self).syms(),
            command_effect(old(self).proved(), final(self).proved(), read_command(s@), r),
            read_command(s@) matches Cmd::Inst(id, var, text) ==> inst_effect(
                old(self).syms(),
                old(self).proved(),
                final(self).proved(),
                id,
                var,
                text,
                r,
            ),
    {
        let mut args = SplitWhitespace::new(s);
        let cmd = match args.next() {
            Some(c) => c,
            None => {
                return Ok(Outcome::Nothing);
            },
        };
        if cmd == "show".to_owned() {
            return Ok(Outcome::Show);
        }
        let is_save = cmd == "save".to_owned();
        let is_load = cmd == "load".to_owned();
        if is_save || is_load {
            let file = match args.next() {
                Some(f) => f,
                None => "default.txt".to_owned(),
            };
            return Ok(if is_save { Outcome::Save(file) } else { Outcome::Load(file) });
        }
        if cmd == "mp".to_owned() {
            let ant = match args.next() {
                Some(a) => a,
                None => {
                    return Err("E1".to_owned());
                },
            };
            let imp = match args.next() {
                Some(a) => a,
                None => {
                    return Err("E2".to_owned());
                },
            };
            let ant_id = match parse_usize(ant.as_str()) {
                Some(n) => n,
                None => {
                    return Err("E3".to_owned());
                },
            };
            let imp_id = match parse_usize(imp.as_str()) {
                Some(n) => n,
                None => {
                    return Err("E4".to_owned());
                },
            };
            assert(crate::sym::parse_num(ant@) == Some(ant_id as nat));
            assert(crate::sym::parse_num(imp@) == Some(imp_id as nat));
            return match self.mp(ant_id, imp_id) {
                Ok(id) => Ok(Outcome::Derived(id)),
                Err(e) => Err(e.message()),
            };
        }
        if cmd == "inst".to_owned() {
            let id = match args.next() {
                Some(a) => a,
                None => {
                    return Err("".to_owned());
                },
            };
            let id = match parse_usize(id.as_str()) {
                Some(n) => n,
                None => {
                    return Err("".to_owned());
                },
            };
            let var = match args.next() {
                Some(v) => v,
                None => {
                    return Err("".to_owned());
                },
            };
            let rem = args.remainder();
            let replace = match self.parser.parse(rem.as_str()) {
                Ok(t) => t,
                Err(_) => {
                    return Err("".to_owned());
                },
            };
            return match self.inst(id, var.as_str(), replace.subtree_root()) {
                Ok(n) => Ok(Outcome::Derived(n)),
                Err(e) => {
                    let m = e.message();
                    proof {
                        if let KernelError::Capture(b) = e {
                            assert(m@ == "captured free variable: "@ + b@);
                        }
                    }
                    Err(m)
                },
            };
        }
        let mut m = "unknown command: ".to_owned();
        crate::text::push_all(&mut m, cmd.as_str());
        Err(m)
    }

    /// Parses `s` under this kernel's table.
    pub fn parse(&mut self, s: &str) -> (r: Result<Tree<String>, ParseError>)
        requires
            old(self).wf(),
        ensures
            final(self).wf(),
            final(self).syms() == old(self).syms(),
            final(self).proved() == old(self).proved(),
            match parse_text(old(self).syms(), s@) {
                Ok(t) => r is Ok && r->Ok_0.wf() && r->Ok_0.view_term() == t,
                Err(e) => r is Err && r->Err_0 == e,
            },
    {
        self.parser.parse(s)
    }
}

} // verus!
