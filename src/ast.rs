//! The operator-precedence builder: it receives tokens one at a time, keeps
//! the pending items by token position, and folds each bracketed range, and
//! finally the whole input, into one term.
use vstd::prelude::*;
use crate::lexer::{Token, Tok};
use crate::sym::{Assoc, Sym, SymData, sym_view};
use crate::tree::{Term, Tree};

verus! {

/// Why building a term failed.
#[derive(Debug, Clone, Copy, PartialEq, Eq, Structural)]
pub enum BuildError {
    /// A closing bracket without an opening one.
    MissingParenL,
    /// An opening bracket that is never closed.
    MissingParenR,
    /// An operator with fewer operands around it than its layout asks for.
    Insufficient,
    /// An operand position held an operator that was still unresolved.
    Operand,
    /// A range did not fold into exactly one item.
    Leftover,
}

/// The text that describes `e`.
pub open spec fn build_message(e: BuildError) -> Seq<char> {
    match e {
        BuildError::MissingParenL => "missing ParenL"@,
        BuildError::MissingParenR => "missing ParenR"@,
        BuildError::Insufficient => "insufficient operands"@,
        BuildError::Operand => "syntax error: an operand is an unresolved operator"@,
        BuildError::Leftover => "syntax error: the expression does not form one term"@,
    }
}

impl BuildError {
    pub fn message(&self) -> (r: &'static str)
        ensures
            r@ == build_message(*self),
    {
        match self {
            BuildError::MissingParenL => "missing ParenL",
            BuildError::MissingParenR => "missing ParenR",
            BuildError::Insufficient => "insufficient operands",
            BuildError::Operand => "syntax error: an operand is an unresolved operator",
            BuildError::Leftover => "syntax error: the expression does not form one term",
        }
    }
}

/// A pending item: a finished term, or an operator not yet folded.
pub enum ProcItem {
    Sym(SymData),
    Done(Tree<String>),
}

/// The abstract value of a pending item.
pub enum Item {
    Done(Term<Seq<char>>),
    Op(Sym),
}

impl ProcItem {
    pub open spec fn view(&self) -> Item {
        match self {
            ProcItem::Sym(s) => Item::Op(sym_view(*s)),
            ProcItem::Done(t) => Item::Done(t.view_term()),
        }
    }

    pub open spec fn wf(&self) -> bool {
        match self {
            ProcItem::Sym(_) => true,
            ProcItem::Done(t) => t.wf(),
        }
    }
}

pub open spec fn item_view(o: Option<ProcItem>) -> Option<Item> {
    match o {
        Some(x) => Some(x.view()),
        None => None,
    }
}

pub open spec fn items_of(v: Seq<Option<ProcItem>>) -> Seq<Option<Item>> {
    v.map_values(|o: Option<ProcItem>| item_view(o))
}

pub open spec fn items_wf(v: Seq<Option<ProcItem>>) -> bool {
    forall|i: int| 0 <= i < v.len() ==> (#[trigger] v[i] matches Some(x) ==> x.wf())
}

pub open spec fn is_present(items: Seq<Option<Item>>, q: int) -> bool {
    0 <= q < items.len() && items[q] is Some
}

pub open spec fn is_op(items: Seq<Option<Item>>, q: int) -> bool {
    0 <= q < items.len() && items[q] matches Some(Item::Op(_))
}

pub open spec fn op_at(items: Seq<Option<Item>>, q: int) -> Sym {
    match items[q] {
        Some(Item::Op(s)) => s,
        _ => arbitrary(),
    }
}

pub open spec fn term_at(items: Seq<Option<Item>>, q: int) -> Term<Seq<char>> {
    match items[q] {
        Some(Item::Done(t)) => t,
        _ => arbitrary(),
    }
}

/// The positions in `[lo, hi)` that hold an item, in order.
pub open spec fn present_in(items: Seq<Option<Item>>, lo: int, hi: int) -> Seq<int>
    decreases hi - lo,
{
    if hi <= lo {
        Seq::empty()
    } else {
        let r = present_in(items, lo, hi - 1);
        if is_present(items, hi - 1) {
            r.push(hi - 1)
        } else {
            r
        }
    }
}

/// The number of unresolved operators in `[lo, hi)`.
pub open spec fn op_count(items: Seq<Option<Item>>, lo: int, hi: int) -> nat
    decreases hi - lo,
{
    if hi <= lo {
        0
    } else {
        op_count(items, lo, hi - 1) + if is_op(items, hi - 1) { 1nat } else { 0nat }
    }
}

/// Whether the operator at `p` is folded before the one at `q`: a tighter
/// precedence first; at equal precedence, the leftmost first for a
/// left-associative operator and the rightmost first for a right-associative one.
pub open spec fn folds_before(items: Seq<Option<Item>>, p: int, q: int) -> bool {
    let a = op_at(items, p);
    let b = op_at(items, q);
    a.prec > b.prec || (a.prec == b.prec && if a.assoc == Assoc::L { p < q } else { p > q })
}

/// The position of the operator in `[lo, hi)` that is folded first; -1 if there is none.
pub open spec fn top_op(items: Seq<Option<Item>>, lo: int, hi: int) -> int
    decreases hi - lo,
{
    if hi <= lo {
        -1
    } else {
        let b = top_op(items, lo, hi - 1);
        if is_op(items, hi - 1) && (b < lo || folds_before(items, hi - 1, b)) {
            hi - 1
        } else {
            b
        }
    }
}

/// The operand positions of the operator at `p`: the nearest `front` items
/// before it and the nearest `back` items after it, within `[lo, hi)`.
pub open spec fn fold_args(items: Seq<Option<Item>>, lo: int, hi: int, p: int) -> Seq<int> {
    let s = op_at(items, p);
    let before = present_in(items, lo, p);
    let after = present_in(items, p + 1, hi);
    before.subrange(before.len() - s.front, before.len() as int) + after.subrange(0, s.back as int)
}

pub open spec fn clear_at(items: Seq<Option<Item>>, qs: Seq<int>) -> Seq<Option<Item>> {
    Seq::new(items.len(), |i: int| if qs.contains(i) { None } else { items[i] })
}

/// `items` after the operator at `p` took its operands and became their term.
pub open spec fn fold_at(items: Seq<Option<Item>>, lo: int, hi: int, p: int) -> Seq<Option<Item>> {
    let args = fold_args(items, lo, hi, p);
    let t = Term {
        value: op_at(items, p).name,
        children: Seq::new(args.len(), |j: int| term_at(items, args[j])),
    };
    clear_at(items, args).update(p, Some(Item::Done(t)))
}

pub proof fn lemma_present_in(items: Seq<Option<Item>>, lo: int, hi: int)
    ensures
        forall|j: int| 0 <= j < present_in(items, lo, hi).len() ==> lo <= #[trigger] present_in(items, lo, hi)[j] < hi
            && is_present(items, present_in(items, lo, hi)[j]),
        forall|i: int, j: int| 0 <= i < j < present_in(items, lo, hi).len() ==> present_in(items, lo, hi)[i]
            < present_in(items, lo, hi)[j],
    decreases hi - lo,
{
    if hi > lo {
        lemma_present_in(items, lo, hi - 1);
        let r = present_in(items, lo, hi - 1);
        let s = present_in(items, lo, hi);
        if is_present(items, hi - 1) {
            assert(s == r.push(hi - 1));
            assert forall|j: int| 0 <= j < s.len() implies lo <= #[trigger] s[j] < hi && is_present(items, s[j]) by {
                if j < r.len() {
                    assert(s[j] == r[j]);
                }
            }
            assert forall|i: int, j: int| 0 <= i < j < s.len() implies s[i] < s[j] by {
                assert(s[i] == r[i]);
                if j < r.len() {
                    assert(s[j] == r[j]);
                }
            }
        }
    }
}

pub proof fn lemma_top_op(items: Seq<Option<Item>>, lo: int, hi: int)
    requires
        0 <= lo,
    ensures
        op_count(items, lo, hi) > 0 ==> lo <= top_op(items, lo, hi) < hi && is_op(items, top_op(items, lo, hi)),
        op_count(items, lo, hi) == 0 ==> top_op(items, lo, hi) < lo,
    decreases hi - lo,
{
    if hi > lo {
        lemma_top_op(items, lo, hi - 1);
    }
}

/// Changing which positions hold operators at `p` alone changes the count by that position.
pub proof fn lemma_op_count(a: Seq<Option<Item>>, b: Seq<Option<Item>>, lo: int, hi: int, p: int)
    requires
        lo <= p < hi,
        is_op(a, p),
        !is_op(b, p),
        forall|q: int| lo <= q < hi && q != p ==> is_op(a, q) == is_op(b, q),
    ensures
        op_count(b, lo, hi) + 1 == op_count(a, lo, hi),
    decreases hi - lo,
{
    if hi - 1 > p {
        lemma_op_count(a, b, lo, hi - 1, p);
    } else {
        lemma_op_count_same(a, b, lo, hi - 1);
    }
}

pub proof fn lemma_op_count_same(a: Seq<Option<Item>>, b: Seq<Option<Item>>, lo: int, hi: int)
    requires
        forall|q: int| lo <= q < hi ==> is_op(a, q) == is_op(b, q),
    ensures
        op_count(b, lo, hi) == op_count(a, lo, hi),
    decreases hi - lo,
{
    if hi > lo {
        lemma_op_count_same(a, b, lo, hi - 1);
    }
}

/// Folding the first operator leaves one operator fewer in the range.
pub proof fn lemma_fold_decreases(items: Seq<Option<Item>>, lo: int, hi: int)
    requires
        0 <= lo,
        op_count(items, lo, hi) > 0,
        !(exists|j: int| 0 <= j < fold_args(items, lo, hi, top_op(items, lo, hi)).len()
            && is_op(items, #[trigger] fold_args(items, lo, hi, top_op(items, lo, hi))[j])),
    ensures
        op_count(fold_at(items, lo, hi, top_op(items, lo, hi)), lo, hi) < op_count(items, lo, hi),
{
    let p = top_op(items, lo, hi);
    lemma_top_op(items, lo, hi);
    let next = fold_at(items, lo, hi, p);
    let args = fold_args(items, lo, hi, p);
    assert forall|q: int| lo <= q < hi && q != p implies is_op(items, q) == is_op(next, q) by {
        if args.contains(q) {
            let j = choose|j: int| 0 <= j < args.len() && args[j] == q;
            assert(!is_op(items, args[j]));
        }
    }
    lemma_op_count(items, next, lo, hi, p);
}

/// Folds the range `[lo, hi)` operator by operator, the first to fold first,
/// until it holds exactly one item.
pub open spec fn reduce(items: Seq<Option<Item>>, lo: int, hi: int) -> Result<Seq<Option<Item>>, BuildError>
    decreases op_count(items, lo, hi),
{
    if op_count(items, lo, hi) == 0 || lo < 0 {
        if present_in(items, lo, hi).len() == 1 {
            Ok(items)
        } else {
            Err(BuildError::Leftover)
        }
    } else {
        let p = top_op(items, lo, hi);
        let s = op_at(items, p);
        let before = present_in(items, lo, p);
        let after = present_in(items, p + 1, hi);
        let args = fold_args(items, lo, hi, p);
        if before.len() < s.front || after.len() < s.back {
            Err(BuildError::Insufficient)
        } else if exists|j: int| 0 <= j < args.len() && is_op(items, #[trigger] args[j]) {
            Err(BuildError::Operand)
        } else {
            proof {
                lemma_fold_decreases(items, lo, hi);
            }
            reduce(fold_at(items, lo, hi, p), lo, hi)
        }
    }
}

pub open spec fn ints(v: Seq<usize>) -> Seq<int> {
    v.map_values(|x: usize| x as int)
}

/// The positions in `[lo, hi)` that hold an item.
fn present_positions(tokens: &Vec<Option<ProcItem>>, lo: usize, hi: usize) -> (r: Vec<usize>)
    requires
        lo <= hi <= tokens@.len(),
    ensures
        ints(r@) == present_in(items_of(tokens@), lo as int, hi as int),
{
    let ghost items = items_of(tokens@);
    let mut r: Vec<usize> = Vec::new();
    let mut q = lo;
    while q < hi
        invariant
            lo <= q <= hi,
            hi <= tokens@.len(),
            items == items_of(tokens@),
            ints(r@) == present_in(items, lo as int, q as int),
        decreases hi - q,
    {
        if tokens[q].is_some() {
            r.push(q);
        }
        q += 1;
        assert(ints(r@) =~= present_in(items, lo as int, q as int));
    }
    r
}

/// The precedence and associativity of the operator at `q`.
fn op_info(tokens: &Vec<Option<ProcItem>>, q: usize) -> (r: (i32, Assoc))
    requires
        is_op(items_of(tokens@), q as int),
    ensures
        r.0 == op_at(items_of(tokens@), q as int).prec,
        r.1 == op_at(items_of(tokens@), q as int).assoc,
{
    match &tokens[q] {
        Some(ProcItem::Sym(s)) => (s.prec, s.assoc),
        _ => (0, Assoc::L),
    }
}

/// The position of the operator in `[lo, hi)` that folds first.
fn first_op(tokens: &Vec<Option<ProcItem>>, lo: usize, hi: usize) -> (r: Option<usize>)
    requires
        lo <= hi <= tokens@.len(),
    ensures
        r is None ==> top_op(items_of(tokens@), lo as int, hi as int) < lo,
        r matches Some(p) ==> p == top_op(items_of(tokens@), lo as int, hi as int) && lo <= p < hi
            && is_op(items_of(tokens@), p as int),
{
    let ghost items = items_of(tokens@);
    let mut best: Option<usize> = None;
    let mut q = lo;
    while q < hi
        invariant
            lo <= q <= hi,
            hi <= tokens@.len(),
            items == items_of(tokens@),
            best is None ==> top_op(items, lo as int, q as int) < lo,
            best matches Some(b) ==> b == top_op(items, lo as int, q as int) && is_op(items, b as int)
                && lo <= b < q,
        decreases hi - q,
    {
        let here = match &tokens[q] {
            Some(ProcItem::Sym(_)) => true,
            _ => false,
        };
        assert(is_op(items, q as int) == here);
        if here {
            match best {
                None => {
                    best = Some(q);
                },
                Some(b) => {
                    let (pq, aq) = op_info(tokens, q);
                    let (pb, _) = op_info(tokens, b);
                    let wins = pq > pb || (pq == pb && if aq == Assoc::L { q < b } else { q > b });
                    if wins {
                        best = Some(q);
                    }
                },
            }
        }
        q += 1;
    }
    best
}

pub proof fn lemma_no_ops(items: Seq<Option<Item>>, lo: int, hi: int)
    requires
        op_count(items, lo, hi) == 0,
    ensures
        forall|q: int| lo <= q < hi ==> !is_op(items, q),
    decreases hi - lo,
{
    if hi > lo {
        lemma_no_ops(items, lo, hi - 1);
    }
}

/// A successful fold leaves exactly one item and no operator in the range.
pub proof fn lemma_reduce_ok(items: Seq<Option<Item>>, lo: int, hi: int)
    requires
        reduce(items, lo, hi) is Ok,
        0 <= lo,
    ensures
        op_count(reduce(items, lo, hi)->Ok_0, lo, hi) == 0,
        present_in(reduce(items, lo, hi)->Ok_0, lo, hi).len() == 1,
        reduce(items, lo, hi)->Ok_0.len() == items.len(),
    decreases op_count(items, lo, hi),
{
    if op_count(items, lo, hi) != 0 {
        let p = top_op(items, lo, hi);
        lemma_fold_decreases(items, lo, hi);
        lemma_top_op(items, lo, hi);
        assert(fold_at(items, lo, hi, p).len() == items.len());
        lemma_reduce_ok(fold_at(items, lo, hi, p), lo, hi);
    }
}

/// Folds the range `[lo, hi)` as `reduce` says.
fn gen_ast_no_paren(tokens: &mut Vec<Option<ProcItem>>, lo: usize, hi: usize) -> (r: Result<(), BuildError>)
    requires
        lo <= hi <= old(tokens)@.len(),
        items_wf(old(tokens)@),
    ensures
        final(tokens)@.len() == old(tokens)@.len(),
        items_wf(final(tokens)@),
        match reduce(items_of(old(tokens)@), lo as int, hi as int) {
            Ok(v) => r is Ok && items_of(final(tokens)@) == v,
            Err(e) => r == Err::<(), BuildError>(e),
        },
{
    let ghost goal = reduce(items_of(tokens@), lo as int, hi as int);
    loop
        invariant
            lo <= hi <= tokens@.len(),
            tokens@.len() == old(tokens)@.len(),
            items_wf(tokens@),
            goal == reduce(items_of(tokens@), lo as int, hi as int),
            goal == reduce(items_of(old(tokens)@), lo as int, hi as int),
        decreases op_count(items_of(tokens@), lo as int, hi as int),
    {
        let ghost items = items_of(tokens@);
        let ghost t0 = tokens@;
        proof {
            lemma_top_op(items, lo as int, hi as int);
        }
        let p = match first_op(tokens, lo, hi) {
            None => {
                let present = present_positions(tokens, lo, hi);
                if present.len() == 1 {
                    return Ok(());
                } else {
                    return Err(BuildError::Leftover);
                }
            },
            Some(p) => p,
        };
        let (name, front, back) = match &tokens[p] {
            Some(ProcItem::Sym(s)) => (s.name.clone(), s.layout.front, s.layout.back),
            _ => (String::new(), 0, 0),
        };
        assert(op_at(items, p as int).front == front && op_at(items, p as int).back == back
            && op_at(items, p as int).name == name@);
        let before = present_positions(tokens, lo, p);
        let after = present_positions(tokens, p + 1, hi);
        if before.len() < front || after.len() < back {
            return Err(BuildError::Insufficient);
        }
        let ghost args_s = fold_args(items, lo as int, hi as int, p as int);
        let mut args: Vec<usize> = Vec::new();
        let start = before.len() - front;
        let mut k = start;
        while k < before.len()
            invariant
                tokens@ == t0,
                start == before.len() - front,
                start <= k <= before.len(),
                args@.len() == k - start,
                forall|j: int| 0 <= j < args@.len() ==> args@[j] == before@[start + j],
            decreases before.len() - k,
        {
            args.push(before[k]);
            k += 1;
        }
        let mut k: usize = 0;
        while k < back
            invariant
                tokens@ == t0,
                start == before.len() - front,
                k <= back <= after.len(),
                args@.len() == front + k,
                forall|j: int| 0 <= j < front ==> args@[j] == before@[start + j],
                forall|j: int| front <= j < front + k ==> args@[j] == after@[j - front],
            decreases back - k,
        {
            args.push(after[k]);
            k += 1;
        }
        proof {
            assert(ints(before@) == present_in(items, lo as int, p as int));
            assert(ints(after@) == present_in(items, p + 1, hi as int));
            assert forall|j: int| 0 <= j < args@.len() implies #[trigger] ints(args@)[j] == args_s[j] by {
                if j < front {
                    assert(ints(before@)[start + j] == before@[start + j] as int);
                } else {
                    assert(ints(after@)[j - front] == after@[j - front] as int);
                }
            }
            assert(ints(args@) =~= args_s);
        }
        proof {
            lemma_present_in(items, lo as int, p as int);
            lemma_present_in(items, p + 1, hi as int);
            assert forall|j: int| 0 <= j < args_s.len() implies is_present(items, #[trigger] args_s[j]) && args_s[j] != p by {
                if j < front {
                    assert(args_s[j] == present_in(items, lo as int, p as int)[before.len() - front + j]);
                } else {
                    assert(args_s[j] == present_in(items, p + 1, hi as int)[j - front]);
                }
            }
        }
        let mut k: usize = 0;
        while k < args.len()
            invariant
                tokens@ == t0,
                items_wf(t0),
                t0.len() == old(tokens)@.len(),
                op_count(items, lo as int, hi as int) > 0,
                p as int == top_op(items, lo as int, hi as int),
                present_in(items, lo as int, p as int).len() >= op_at(items, p as int).front,
                present_in(items, p + 1, hi as int).len() >= op_at(items, p as int).back,
                args_s == fold_args(items, lo as int, hi as int, p as int),
                goal == reduce(items, lo as int, hi as int),
                goal == reduce(items_of(old(tokens)@), lo as int, hi as int),
                k <= args@.len(),
                ints(args@) == args_s,
                items == items_of(tokens@),
                forall|j: int| 0 <= j < k ==> !is_op(items, #[trigger] args_s[j]),
                forall|j: int| 0 <= j < args_s.len() ==> is_present(items, #[trigger] args_s[j]) && args_s[j] != p,
            decreases args@.len() - k,
        {
            let q = args[k];
            assert(args_s[k as int] == q);
            let op = match &tokens[q] {
                Some(ProcItem::Sym(_)) => true,
                _ => false,
            };
            if op {
                proof {
                    assert(is_op(items, args_s[k as int]));
                    assert(op_count(items, lo as int, hi as int) > 0);
                    assert(present_in(items, lo as int, p as int).len() >= op_at(items, p as int).front);
                    assert(present_in(items, p + 1, hi as int).len() >= op_at(items, p as int).back);
                    assert(exists|j: int| 0 <= j < args_s.len() && is_op(items, #[trigger] args_s[j]));
                    assert(reduce(items, lo as int, hi as int) == Err::<Seq<Option<Item>>, BuildError>(BuildError::Operand));
                }
                return Err(BuildError::Operand);
            }
            k += 1;
        }
        let mut t = Tree::new(name);
        let mut k: usize = 0;
        let ghost kids = Seq::new(args_s.len(), |j: int| term_at(items, args_s[j]));
        proof {
            assert(t.view_term().children =~= kids.subrange(0, 0));
        }
        while k < args.len()
            invariant
                tokens@ == t0,
                k <= args@.len(),
                ints(args@) == args_s,
                items == items_of(tokens@),
                items_wf(tokens@),
                kids == Seq::new(args_s.len(), |j: int| term_at(items, args_s[j])),
                forall|j: int| 0 <= j < args_s.len() ==> is_present(items, #[trigger] args_s[j]) && !is_op(items, args_s[j]),
                t.wf(),
                t.root() == 0,
                t.view_term().value == op_at(items, p as int).name,
                t.view_term().children == kids.subrange(0, k as int),
            decreases args@.len() - k,
        {
            let q = args[k];
            assert(args_s[k as int] == q);
            match &tokens[q] {
                Some(ProcItem::Done(tr)) => {
                    t.push_sub(0, tr.subtree_root());
                },
                _ => {},
            }
            k += 1;
            assert(t.view_term().children =~= kids.subrange(0, k as int));
        }
        let mut k: usize = 0;
        while k < args.len()
            invariant
                k <= args@.len(),
                ints(args@) == args_s,
                forall|j: int| 0 <= j < args_s.len() ==> is_present(items, #[trigger] args_s[j]) && args_s[j] != p,
                tokens@.len() == items.len(),
                items_wf(tokens@),
                items_of(tokens@) == clear_at(items, args_s.subrange(0, k as int)),
            decreases args@.len() - k,
        {
            let q = args[k];
            assert(args_s[k as int] == q);
            let ghost prev = args_s.subrange(0, k as int);
            let ghost next = args_s.subrange(0, k + 1);
            let ghost qi = q as int;
            let ghost tb = tokens@;
            tokens[q] = None;
            assert(tokens@ == tb.update(qi, None));
            k += 1;
            assert forall|i: int| 0 <= i < items.len() implies items_of(tokens@)[i] == clear_at(items, next)[i] by {
                assert(items_of(tb)[i] == clear_at(items, prev)[i]);
                if next.contains(i) {
                    if i != qi {
                        let j = choose|j: int| 0 <= j < next.len() && next[j] == i;
                        assert(prev[j] == i);
                    }
                } else {
                    if prev.contains(i) {
                        let j = choose|j: int| 0 <= j < prev.len() && prev[j] == i;
                        assert(next[j] == i);
                    }
                    assert(i != qi) by {
                        assert(next[k - 1] == qi);
                    }
                }
            }
            assert(items_of(tokens@) =~= clear_at(items, args_s.subrange(0, k as int)));
        }
        assert(args_s.subrange(0, args_s.len() as int) =~= args_s);
        tokens[p] = Some(ProcItem::Done(t));
        proof {
            assert(t.view_term().children =~= kids);
            assert(items_of(tokens@) =~= fold_at(items, lo as int, hi as int, p as int));
            lemma_fold_decreases(items, lo as int, hi as int);
        }
    }
}

/// The builder's abstract state: the pending items by position, and the
/// positions of the brackets still open.
pub struct GenState {
    pub items: Seq<Option<Item>>,
    pub open: Seq<int>,
}

/// Receiving the token `t`: brackets are remembered, a closing bracket folds
/// the range since its opening bracket, every other token becomes an item.
pub open spec fn recv_step(st: GenState, t: Tok) -> Result<GenState, BuildError> {
    let i = st.items.len() as int;
    match t {
        Tok::PrthL => Ok(GenState { items: st.items.push(None), open: st.open.push(i) }),
        Tok::PrthR => if st.open.len() == 0 {
            Err(BuildError::MissingParenL)
        } else {
            match reduce(st.items.push(None), st.open.last(), i) {
                Ok(v) => Ok(GenState { items: v, open: st.open.drop_last() }),
                Err(e) => Err(e),
            }
        },
        Tok::Literal(s) => Ok(GenState { items: st.items.push(Some(Item::Done(crate::tree::leaf(s)))), ..st }),
        Tok::Ident(s) => Ok(GenState { items: st.items.push(Some(Item::Done(crate::tree::leaf(s)))), ..st }),
        Tok::Op(sym) => Ok(GenState { items: st.items.push(Some(Item::Op(sym))), ..st }),
    }
}

/// The end of input: every bracket must be closed, and the whole input must
/// fold into one term.
pub open spec fn finish_step(st: GenState) -> Result<Term<Seq<char>>, BuildError> {
    if st.open.len() > 0 {
        Err(BuildError::MissingParenR)
    } else {
        match reduce(st.items, 0, st.items.len() as int) {
            Ok(v) => Ok(term_at(v, present_in(v, 0, v.len() as int)[0])),
            Err(e) => Err(e),
        }
    }
}

/// Receiving all of `ts` from state `st`, stopping at the first error.
pub open spec fn recv_seq(st: GenState, ts: Seq<Tok>) -> Result<GenState, BuildError>
    decreases ts.len(),
{
    if ts.len() == 0 {
        Ok(st)
    } else {
        match recv_step(st, ts[0]) {
            Ok(s2) => recv_seq(s2, ts.drop_first()),
            Err(e) => Err(e),
        }
    }
}

/// The term that the tokens `ts` build, from an empty builder.
pub open spec fn build(ts: Seq<Tok>) -> Result<Term<Seq<char>>, BuildError> {
    match recv_seq(GenState { items: Seq::empty(), open: Seq::empty() }, ts) {
        Ok(st) => finish_step(st),
        Err(e) => Err(e),
    }
}

/// Builds one term from a stream of tokens.
pub struct AstGen {
    tokens: Vec<Option<ProcItem>>,
    num_recv: usize,
    paren_l: Vec<usize>,
}

impl AstGen {
    pub closed spec fn state(&self) -> GenState {
        GenState { items: items_of(self.tokens@), open: ints(self.paren_l@) }
    }

    pub closed spec fn wf(&self) -> bool {
        &&& self.tokens@.len() == self.num_recv
        &&& items_wf(self.tokens@)
        &&& forall|j: int| 0 <= j < self.paren_l@.len() ==> self.paren_l@[j] < self.num_recv
    }

    pub fn new() -> (r: Self)
        ensures
            r.wf(),
            r.state() == (GenState { items: Seq::empty(), open: Seq::empty() }),
    {
        let r = AstGen { tokens: Vec::new(), num_recv: 0, paren_l: Vec::new() };
        assert(r.state().items =~= Seq::empty());
        assert(r.state().open =~= Seq::empty());
        r
    }

    /// Forgets everything received.
    pub fn clear(&mut self)
        ensures
            final(self).wf(),
            final(self).state() == (GenState { items: Seq::empty(), open: Seq::empty() }),
    {
        *self = AstGen::new();
    }

    /// Receives the next token.
    pub fn recv(&mut self, token: Token) -> (r: Result<(), BuildError>)
        requires
            old(self).wf(),
        ensures
            final(self).wf(),
            match recv_step(old(self).state(), token.view()) {
                Ok(s2) => r is Ok && final(self).state() == s2,
                Err(e) => r == Err::<(), BuildError>(e),
            },
    {
        let i = self.tokens.len();
        let ghost st = self.state();
        match token {
            Token::PrthL => {
                self.tokens.push(None);
                self.paren_l.push(i);
                self.num_recv = self.tokens.len();
                assert(self.state().items =~= st.items.push(None));
                assert(self.state().open =~= st.open.push(i as int));
                Ok(())
            },
            Token::PrthR => {
                self.tokens.push(None);
                self.num_recv = self.tokens.len();
                assert(items_of(self.tokens@) =~= st.items.push(None));
                let l = match self.paren_l.pop() {
                    Some(l) => l,
                    None => {
                        return Err(BuildError::MissingParenL);
                    },
                };
                assert(ints(self.paren_l@) =~= st.open.drop_last());
                let r = gen_ast_no_paren(&mut self.tokens, l, i);
                r
            },
            Token::Literal(s) => {
                self.tokens.push(Some(ProcItem::Done(Tree::new(s))));
                self.num_recv = self.tokens.len();
                assert(self.state().items =~= st.items.push(Some(Item::Done(crate::tree::leaf(s@)))));
                Ok(())
            },
            Token::Ident(s) => {
                self.tokens.push(Some(ProcItem::Done(Tree::new(s))));
                self.num_recv = self.tokens.len();
                assert(self.state().items =~= st.items.push(Some(Item::Done(crate::tree::leaf(s@)))));
                Ok(())
            },
            Token::Op(op) => {
                let ghost v = sym_view(op);
                self.tokens.push(Some(ProcItem::Sym(op)));
                self.num_recv = self.tokens.len();
                assert(self.state().items =~= st.items.push(Some(Item::Op(v))));
                Ok(())
            },
        }
    }

    /// Folds the whole input into one term.
    pub fn finish(&mut self) -> (r: Result<Tree<String>, BuildError>)
        requires
            old(self).wf(),
        ensures
            final(self).wf(),
            match finish_step(old(self).state()) {
                Ok(t) => r is Ok && r->Ok_0.wf() && r->Ok_0.view_term() == t,
                Err(e) => r is Err && r->Err_0 == e,
            },
    {
        if self.paren_l.len() > 0 {
            return Err(BuildError::MissingParenR);
        }
        let n = self.tokens.len();
        match gen_ast_no_paren(&mut self.tokens, 0, n) {
            Ok(()) => {},
            Err(e) => {
                return Err(e);
            },
        }
        let ghost v = items_of(self.tokens@);
        proof {
            lemma_reduce_ok(old(self).state().items, 0, n as int);
            lemma_no_ops(v, 0, n as int);
            lemma_present_in(v, 0, n as int);
        }
        let present = present_positions(&self.tokens, 0, n);
        let q = present[0];
        assert(ints(present@)[0] == q as int);
        let ghost before = self.tokens@;
        let item = self.tokens[q].take();
        assert(item == before[q as int]);
        assert(v[q as int] == item_view(item));
        assert(items_of(self.tokens@) =~= v.update(q as int, None));
        match item {
            Some(ProcItem::Done(t)) => {
                proof {
                    assert(old(self).paren_l@.len() == 0);
                    assert(old(self).state().open.len() == 0);
                    assert(reduce(old(self).state().items, 0, n as int) == Ok::<Seq<Option<Item>>, BuildError>(v));
                    assert(present_in(v, 0, v.len() as int)[0] == q as int);
                    assert(term_at(v, q as int) == t.view_term());
                    assert(before[q as int] matches Some(x) ==> x.wf());
                    assert(v.len() == n);
                    assert(finish_step(old(self).state()) == Ok::<Term<Seq<char>>, BuildError>(t.view_term()));
                    assert(t.wf());
                }
                Ok(t)
            },
            _ => {
                proof {
                    assert(is_present(v, q as int));
                    assert(!is_op(v, q as int));
                }
                Err(BuildError::Leftover)
            },
        }
    }

    /// Receives all of `tokens`, then folds the whole input into one term.
    pub fn recv_all(&mut self, tokens: Vec<Token>) -> (r: Result<Tree<String>, BuildError>)
        requires
            old(self).wf(),
        ensures
            final(self).wf(),
            match recv_seq(old(self).state(), crate::lexer::toks(tokens@)) {
                Ok(st) => match finish_step(st) {
                    Ok(t) => r is Ok && r->Ok_0.wf() && r->Ok_0.view_term() == t,
                    Err(e) => r is Err && r->Err_0 == e,
                },
                Err(e) => r is Err && r->Err_0 == e,
            },
    {
        let mut ts = tokens;
        let ghost goal = recv_seq(self.state(), crate::lexer::toks(ts@));
        while ts.len() > 0
            invariant
                self.wf(),
                goal == recv_seq(self.state(), crate::lexer::toks(ts@)),
                goal == recv_seq(old(self).state(), crate::lexer::toks(tokens@)),
            decreases ts@.len(),
        {
            let ghost before = ts@;
            let t = ts.remove(0);
            assert(crate::lexer::toks(ts@) =~= crate::lexer::toks(before).drop_first());
            assert(crate::lexer::toks(before)[0] == t.view());
            match self.recv(t) {
                Ok(()) => {},
                Err(e) => {
                    return Err(e);
                },
            }
        }
        assert(crate::lexer::toks(ts@) =~= Seq::empty());
        self.finish()
    }
}

impl Default for AstGen {
    fn default() -> (r: Self)
        ensures
            r.wf(),
            r.state() == (GenState { items: Seq::empty(), open: Seq::empty() }),
    {
        AstGen::new()
    }
}

} // verus!
