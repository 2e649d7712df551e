//! Terms stored in an arena of nodes addressed by integer ids.
use vstd::prelude::*;

verus! {

/// The abstract value of a term: a root value and the ordered terms below it.
pub struct Term<V> {
    pub value: V,
    pub children: Seq<Term<V>>,
}

pub open spec fn leaf<V>(value: V) -> Term<V> {
    Term { value, children: Seq::empty() }
}

/// The term with root `value` and the given children.
pub open spec fn branch<V>(value: V, children: Seq<Term<V>>) -> Term<V> {
    Term { value, children }
}

/// `t` with every subterm equal to `from` replaced by `to`, outermost first;
/// a replaced subterm is not searched again.
pub open spec fn replace_all<V>(t: Term<V>, from: Term<V>, to: Term<V>) -> Term<V>
    decreases t,
{
    if t == from {
        to
    } else {
        Term {
            value: t.value,
            children: Seq::new(
                t.children.len(),
                |i: int|
                    if 0 <= i < t.children.len() {
                        replace_all(t.children[i], from, to)
                    } else {
                        to
                    },
            ),
        }
    }
}

/// `t` with every value equal to `from` changed to `to`.
pub open spec fn rename_all<V>(t: Term<V>, from: V, to: V) -> Term<V>
    decreases t,
{
    Term {
        value: if t.value == from {
            to
        } else {
            t.value
        },
        children: Seq::new(
            t.children.len(),
            |i: int|
                if 0 <= i < t.children.len() {
                    rename_all(t.children[i], from, to)
                } else {
                    t
                },
        ),
    }
}

/// One node of an arena.
#[derive(Debug)]
pub struct Node<T> {
    pub(crate) parent: Option<usize>,
    pub(crate) children: Vec<usize>,
    pub(crate) value: T,
}

impl<T> Node<T> {
    pub open(crate) spec fn val(&self) -> &T {
        &self.value
    }

    pub open(crate) spec fn kids(&self) -> Seq<usize> {
        self.children@
    }

    pub open(crate) spec fn up(&self) -> Option<usize> {
        self.parent
    }

    pub fn value(&self) -> (r: &T)
        ensures
            r == self.val(),
    {
        &self.value
    }

    pub fn value_mut(&mut self) -> (r: &mut T)
        ensures
            *r == *old(self).val(),
            *final(self).val() == *final(r),
            final(self).kids() == old(self).kids(),
            final(self).up() == old(self).up(),
    {
        &mut self.value
    }

    pub fn children_len(&self) -> (r: usize)
        ensures
            r == self.kids().len(),
    {
        self.children.len()
    }

    pub fn is_leaf(&self) -> (r: bool)
        ensures
            r == (self.kids().len() == 0),
    {
        self.children.len() == 0
    }

    /// The ids of the children, in order.
    pub fn children(&self) -> (r: Children)
        ensures
            r.rest() == self.kids(),
            r.inv(),
    {
        Children::new(&self.children)
    }
}

/// The ids of a node's children, handed out one at a time.
pub struct Children {
    pub(crate) children: Vec<usize>,
    pub(crate) next_idx: usize,
}

impl Children {
    /// The ids that `next` has not handed out yet.
    pub closed spec fn rest(&self) -> Seq<usize> {
        self.children@.subrange(self.next_idx as int, self.children@.len() as int)
    }

    pub closed spec fn inv(&self) -> bool {
        self.next_idx <= self.children@.len()
    }

    fn new(ids: &Vec<usize>) -> (r: Children)
        ensures
            r.rest() == ids@,
            r.inv(),
    {
        let mut children: Vec<usize> = Vec::new();
        let mut i: usize = 0;
        while i < ids.len()
            invariant
                i <= ids@.len(),
                children@ == ids@.subrange(0, i as int),
            decreases ids@.len() - i,
        {
            children.push(ids[i]);
            i += 1;
        }
        assert(children@ =~= ids@);
        let r = Children { children, next_idx: 0 };
        assert(r.rest() =~= ids@);
        r
    }

    pub fn next(&mut self) -> (r: Option<usize>)
        requires
            old(self).inv(),
        ensures
            final(self).inv(),
            old(self).rest().len() == 0 ==> r is None && final(self).rest() == old(self).rest(),
            old(self).rest().len() > 0 ==> r == Some(old(self).rest()[0])
                && final(self).rest() == old(self).rest().drop_first(),
    {
        if self.next_idx < self.children.len() {
            let id = self.children[self.next_idx];
            self.next_idx += 1;
            assert(final(self).rest() =~= old(self).rest().drop_first());
            Some(id)
        } else {
            None
        }
    }
}

/// A term that owns its arena. Slot `i` holds the node with id `i`, if any.
#[derive(Debug)]
pub struct Tree<T> {
    pub(crate) nodes: Vec<Option<Node<T>>>,
    pub(crate) root_id: usize,
}

impl<T> Tree<T> {
    /// The number of slots of the arena; every id is below it.
    pub open(crate) spec fn slots(&self) -> nat {
        self.nodes@.len()
    }

    pub open(crate) spec fn root(&self) -> usize {
        self.root_id
    }

    pub open(crate) spec fn has(&self, id: usize) -> bool {
        id < self.nodes@.len() && self.nodes@[id as int] is Some
    }

    pub open(crate) spec fn node(&self, id: usize) -> Node<T> {
        self.nodes@[id as int]->Some_0
    }

    pub open(crate) spec fn kids(&self, id: usize) -> Seq<usize> {
        self.node(id).children@
    }

    /// Parent and child links agree, and every child id exceeds its parent's.
    pub open(crate) spec fn wf(&self) -> bool {
        &&& self.has(self.root_id)
        &&& self.node(self.root_id).parent is None
        &&& forall|id: usize| #[trigger] self.has(id) ==> self.node_wf(id)
    }

    #[verifier::opaque]
    pub open(crate) spec fn node_wf(&self, id: usize) -> bool {
        &&& forall|i: int|
            0 <= i < self.kids(id).len() ==> {
                let c = #[trigger] self.kids(id)[i];
                &&& id < c
                &&& self.has(c)
                &&& self.node(c).parent == Some(id)
            }
        &&& forall|i: int, j: int|
            0 <= i < j < self.kids(id).len() ==> self.kids(id)[i] != self.kids(id)[j]
        &&& match self.node(id).parent {
            Some(p) => p < id && self.has(p) && self.kids(p).contains(id),
            None => id == self.root_id,
        }
    }

}


impl<T> Tree<T> {
    /// The ids below `id` in pre-order: `id` first, then each child's ids in turn.
    pub open(crate) spec fn pre_ids(&self, id: usize) -> Seq<usize>
        decreases self.slots() - id, 1int,
    {
        seq![id] + self.pre_ids_from(id, 0)
    }

    /// The pre-order ids below the children of `id` from child `i` on.
    pub open(crate) spec fn pre_ids_from(&self, id: usize, i: int) -> Seq<usize>
        decreases self.slots() - id, 0int, self.kids(id).len() - i,
    {
        if 0 <= i < self.kids(id).len() && id < self.kids(id)[i] < self.slots() {
            self.pre_ids(self.kids(id)[i]) + self.pre_ids_from(id, i + 1)
        } else {
            Seq::empty()
        }
    }
}


impl<T> Tree<T> {
    /// Membership in `pre_ids_from(x, i)`: within the pre-order ids of one of
    /// the children from position `i` on.
    pub proof fn lemma_pre_from(&self, x: usize, i: int, y: usize)
        requires
            self.wf(),
            self.has(x),
            0 <= i <= self.kids(x).len(),
        ensures
            self.pre_ids_from(x, i).contains(y) <==> exists|j: int|
                i <= j < self.kids(x).len() && #[trigger] self.pre_ids(self.kids(x)[j]).contains(y),
        decreases self.kids(x).len() - i,
    {
        reveal(Tree::node_wf);
        assert(self.node_wf(x));
        if i < self.kids(x).len() {
            self.lemma_pre_from(x, i + 1, y);
            let c = self.kids(x)[i];
            assert(self.pre_ids_from(x, i) == self.pre_ids(c) + self.pre_ids_from(x, i + 1));
            if self.pre_ids(c).contains(y) {
                let pc = self.pre_ids(c);
                let k = choose|k: int| 0 <= k < pc.len() && pc[k] == y;
                assert(self.pre_ids_from(x, i)[k] == y);
            }
            if self.pre_ids_from(x, i + 1).contains(y) {
                let pf = self.pre_ids_from(x, i + 1);
                let k = choose|k: int| 0 <= k < pf.len() && pf[k] == y;
                assert(self.pre_ids_from(x, i)[self.pre_ids(c).len() + k] == y);
            }
            if self.pre_ids_from(x, i).contains(y) {
                let pf = self.pre_ids_from(x, i);
                let k = choose|k: int| 0 <= k < pf.len() && pf[k] == y;
                if k < self.pre_ids(c).len() {
                    assert(self.pre_ids(c)[k] == y);
                } else {
                    assert(self.pre_ids_from(x, i + 1)[k - self.pre_ids(c).len()] == y);
                }
            }
        }
    }

    /// Every id in `pre_ids(x)` is present, at least `x`, and either `x` or a
    /// node whose parent is also in `pre_ids(x)`.
    pub proof fn lemma_pre_mem(&self, x: usize, y: usize)
        requires
            self.wf(),
            self.has(x),
            self.pre_ids(x).contains(y),
        ensures
            self.has(y),
            x <= y,
            y == x || (self.node(y).up() is Some && self.pre_ids(x).contains(self.node(y).up()->Some_0)),
        decreases self.slots() - x,
    {
        reveal(Tree::node_wf);
        assert(self.node_wf(x));
        if y != x {
            let p = self.pre_ids(x);
            let k = choose|k: int| 0 <= k < p.len() && p[k] == y;
            assert(k > 0);
            assert(self.pre_ids_from(x, 0)[k - 1] == y);
            self.lemma_pre_from(x, 0, y);
            let j = choose|j: int| 0 <= j < self.kids(x).len() && #[trigger] self.pre_ids(self.kids(x)[j]).contains(y);
            let c = self.kids(x)[j];
            self.lemma_pre_mem(c, y);
            self.lemma_pre_sub(x, j);
            if y == c {
                assert(p[0] == x);
            } else {
                assert(self.pre_ids(c).contains(self.node(y).up()->Some_0));
            }
        }
    }

    /// The pre-order ids of a child are among those of its parent.
    pub proof fn lemma_pre_sub(&self, x: usize, j: int)
        requires
            self.wf(),
            self.has(x),
            0 <= j < self.kids(x).len(),
        ensures
            forall|y: usize| #[trigger] self.pre_ids(self.kids(x)[j]).contains(y) ==> self.pre_ids(x).contains(y),
    {
        reveal(Tree::node_wf);
        assert(self.node_wf(x));
        assert forall|y: usize| #[trigger] self.pre_ids(self.kids(x)[j]).contains(y) implies self.pre_ids(x).contains(y) by {
            self.lemma_pre_from(x, 0, y);
            let pf = self.pre_ids_from(x, 0);
            let k = choose|k: int| 0 <= k < pf.len() && pf[k] == y;
            assert(self.pre_ids(x)[k + 1] == y);
        }
    }

    /// The pre-order ids below a member of `pre_ids(x)` are members too.
    pub proof fn lemma_pre_trans(&self, x: usize, y: usize)
        requires
            self.wf(),
            self.has(x),
            self.pre_ids(x).contains(y),
        ensures
            forall|z: usize| #[trigger] self.pre_ids(y).contains(z) ==> self.pre_ids(x).contains(z),
        decreases self.slots() - x,
    {
        reveal(Tree::node_wf);
        assert(self.node_wf(x));
        if y != x {
            let p = self.pre_ids(x);
            let k = choose|k: int| 0 <= k < p.len() && p[k] == y;
            assert(k > 0);
            assert(self.pre_ids_from(x, 0)[k - 1] == y);
            self.lemma_pre_from(x, 0, y);
            let j = choose|j: int| 0 <= j < self.kids(x).len() && #[trigger] self.pre_ids(self.kids(x)[j]).contains(y);
            self.lemma_pre_trans(self.kids(x)[j], y);
            self.lemma_pre_sub(x, j);
        }
    }

    /// Distinct children of one node have disjoint pre-order ids.
    pub proof fn lemma_pre_disjoint(&self, a: usize, b: usize, y: usize)
        requires
            self.wf(),
            self.has(a),
            self.has(b),
            a != b,
            self.node(a).up() is Some,
            self.node(a).up() == self.node(b).up(),
            self.pre_ids(a).contains(y),
        ensures
            !self.pre_ids(b).contains(y),
        decreases y,
    {
        reveal(Tree::node_wf);
        if self.pre_ids(b).contains(y) {
            self.lemma_pre_mem(a, y);
            self.lemma_pre_mem(b, y);
            let p = self.node(a).up()->Some_0;
            assert(self.node_wf(a));
            assert(self.node_wf(b));
            if y == a {
                self.lemma_pre_mem(b, p);
            } else if y == b {
                self.lemma_pre_mem(a, p);
            } else {
                let q = self.node(y).up()->Some_0;
                assert(self.node_wf(y));
                self.lemma_pre_disjoint(a, b, q);
            }
        }
    }
}

impl<T: View> Tree<T> {
    /// The term rooted at `id`. Children always carry larger ids than their parent.
    #[verifier::opaque]
    pub open(crate) spec fn term(&self, id: usize) -> Term<T::V>
        decreases self.slots() - id,
    {
        let n = self.node(id);
        Term {
            value: n.value@,
            children: Seq::new(
                n.children@.len(),
                |i: int|
                    if id < n.children@[i] < self.slots() {
                        self.term(n.children@[i])
                    } else {
                        leaf(n.value@)
                    },
            ),
        }
    }

    /// The whole term.
    pub open(crate) spec fn view_term(&self) -> Term<T::V> {
        self.term(self.root_id)
    }

    /// Creates a tree that holds the single node `value`.
    pub fn new(value: T) -> (r: Self)
        ensures
            r.wf(),
            r.root() == 0,
            r.view_term() == leaf(value@),
            r.slots() == 1,
            r.has(0),
    {
        let node = Node { parent: None, children: Vec::new(), value };
        let mut nodes = Vec::new();
        nodes.push(Some(node));
        let r = Tree { nodes, root_id: 0 };
        reveal(Tree::term);
        reveal(Tree::node_wf);
        assert(r.view_term().children =~= Seq::<Term<T::V>>::empty());
        r
    }

    /// Nodes at or above id `x` that did not change keep the term at `x`.
    pub proof fn lemma_frame(t1: &Self, t2: &Self, x: usize)
        requires
            t1.wf(),
            t1.has(x),
            t2.slots() >= t1.slots(),
            forall|id: usize|
                x <= id && #[trigger] t1.has(id) ==> t2.has(id) && t2.node(id).val() == t1.node(id).val()
                    && t2.kids(id) == t1.kids(id),
        ensures
            t2.term(x) == t1.term(x),
        decreases t1.slots() - x,
    {
        reveal(Tree::term);
        reveal(Tree::node_wf);
        let kids = t1.kids(x);
        assert forall|i: int| 0 <= i < kids.len() implies t2.term(kids[i]) == t1.term(kids[i]) by {
            assert(t1.node_wf(x));
            let c = kids[i];
            assert(t1.has(c));
            Self::lemma_frame(t1, t2, c);
        }
        assert(t2.term(x).children =~= t1.term(x).children);
    }

    pub fn contains_id(&self, id: usize) -> (r: bool)
        ensures
            r == self.has(id),
    {
        id < self.nodes.len() && self.nodes[id].is_some()
    }

    pub fn root_id(&self) -> (r: usize)
        ensures
            r == self.root(),
    {
        self.root_id
    }

    pub fn get(&self, id: usize) -> (r: Option<&T>)
        ensures
            self.has(id) ==> r == Some(self.node(id).val()),
            !self.has(id) ==> r is None,
    {
        if id < self.nodes.len() {
            match &self.nodes[id] {
                Some(node) => Some(&node.value),
                None => None,
            }
        } else {
            None
        }
    }

    /// The value of node `id`, for writing.
    pub fn get_mut(&mut self, id: usize) -> (r: Option<&mut T>)
        ensures
            old(self).has(id) <==> r is Some,
            r matches Some(v) ==> *v == *old(self).node(id).val(),
            r matches Some(v) ==> *final(self).node(id).val() == *final(v),
            r is Some ==> final(self).slots() == old(self).slots(),
            r is Some ==> final(self).root() == old(self).root(),
            r is Some ==> final(self).has(id),
            r is Some ==> final(self).kids(id) == old(self).kids(id),
            r is Some ==> final(self).node(id).up() == old(self).node(id).up(),
            forall|x: usize| x != id && #[trigger] old(self).has(x) ==> final(self).has(x) && final(self).node(x) == old(self).node(x),
            r is None ==> final(self).slots() == old(self).slots() && final(self).root() == old(self).root(),
            forall|x: usize| #[trigger] final(self).has(x) == old(self).has(x),
    {
        if id < self.nodes.len() {
            match &mut self.nodes[id] {
                Some(node) => Some(node.value_mut()),
                None => None,
            }
        } else {
            None
        }
    }

    /// The value of the root, for writing.
    pub fn get_mut_root(&mut self) -> (r: Option<&mut T>)
        ensures
            old(self).has(old(self).root()) <==> r is Some,
            r matches Some(v) ==> *v == *old(self).node(old(self).root()).val(),
            r matches Some(v) ==> *final(self).node(old(self).root()).val() == *final(v),
            final(self).root() == old(self).root(),
    {
        let id = self.root_id;
        self.get_mut(id)
    }

    /// Node `id`, for writing its value.
    pub fn get_node_mut(&mut self, id: usize) -> (r: Option<&mut Node<T>>)
        ensures
            old(self).has(id) <==> r is Some,
            r matches Some(v) ==> *v == old(self).node(id),
            r matches Some(v) ==> final(self).node(id) == *final(v),
            final(self).slots() == old(self).slots(),
            final(self).root() == old(self).root(),
            forall|x: usize| x != id && #[trigger] old(self).has(x) ==> final(self).has(x) && final(self).node(x) == old(self).node(x),
            forall|x: usize| #[trigger] final(self).has(x) == old(self).has(x),
    {
        if id < self.nodes.len() {
            match &mut self.nodes[id] {
                Some(node) => Some(node),
                None => None,
            }
        } else {
            None
        }
    }

    pub fn get_node(&self, id: usize) -> (r: Option<&Node<T>>)
        ensures
            self.has(id) ==> r == Some(&self.node(id)),
            !self.has(id) ==> r is None,
    {
        if id < self.nodes.len() {
            self.nodes[id].as_ref()
        } else {
            None
        }
    }

    pub fn get_root(&self) -> (r: Option<&T>)
        ensures
            self.has(self.root()) ==> r == Some(self.node(self.root()).val()),
            !self.has(self.root()) ==> r is None,
    {
        self.get(self.root_id)
    }

    /// The ids of the children of `id`.
    pub fn children(&self, id: usize) -> (r: Children)
        requires
            self.has(id),
        ensures
            r.rest() == self.kids(id),
            r.inv(),
    {
        match &self.nodes[id] {
            Some(node) => node.children(),
            None => Children::new(&Vec::new()),
        }
    }

    pub fn children_root(&self) -> (r: Children)
        requires
            self.wf(),
        ensures
            r.rest() == self.kids(self.root()),
            r.inv(),
    {
        self.children(self.root_id)
    }

    fn children_len_at(&self, id: usize) -> (r: usize)
        requires
            self.has(id),
        ensures
            r == self.kids(id).len(),
    {
        match &self.nodes[id] {
            Some(node) => node.children.len(),
            None => 0,
        }
    }

    /// Appends the pre-order ids below `id` to `out`.
    fn collect_ids(&self, id: usize, out: &mut Vec<usize>)
        requires
            self.wf(),
            self.has(id),
        ensures
            final(out)@ == old(out)@ + self.pre_ids(id),
        decreases self.slots() - id,
    {
        proof {
            Tree::lemma_term(self, id);
        }
        let ghost o0 = out@;
        out.push(id);
        let n = self.children_len_at(id);
        let mut i: usize = 0;
        assert(o0 + self.pre_ids(id) =~= out@ + self.pre_ids_from(id, 0));
        while i < n
            invariant
                self.wf(),
                self.has(id),
                i <= n,
                n == self.kids(id).len(),
                forall|j: int| 0 <= j < n ==> id < #[trigger] self.kids(id)[j] && self.has(self.kids(id)[j]),
                o0 + self.pre_ids(id) == out@ + self.pre_ids_from(id, i as int),
            decreases n - i,
        {
            let c = self.kid_at(id, i);
            let ghost before = out@;
            self.collect_ids(c, out);
            assert(before + self.pre_ids_from(id, i as int) =~= out@ + self.pre_ids_from(id, i + 1));
            i += 1;
        }
        assert(out@ + self.pre_ids_from(id, n as int) =~= out@);
    }

    /// The ids of the whole tree in pre-order.
    pub fn ids(&self) -> (r: Ids)
        requires
            self.wf(),
        ensures
            r.rest() == self.pre_ids(self.root()),
    {
        self.ids_sub(self.root_id)
    }

    /// The ids below `id` in pre-order.
    pub fn ids_sub(&self, id: usize) -> (r: Ids)
        requires
            self.wf(),
            self.has(id),
        ensures
            r.rest() == self.pre_ids(id),
    {
        let mut out: Vec<usize> = Vec::new();
        self.collect_ids(id, &mut out);
        assert(Seq::<usize>::empty() + self.pre_ids(id) =~= self.pre_ids(id));
        let r = Ids { ids: out, next_idx: 0 };
        assert(r.rest() =~= self.pre_ids(id));
        r
    }

    /// A view of the subtree below `id`.
    pub fn subtree(&self, id: usize) -> (r: Subtree<'_, T>)
        requires
            self.wf(),
            self.has(id),
        ensures
            r.tree() == self,
            r.at() == id,
            r.term() == self.term(id),
    {
        Subtree { nodes: self, root_id: id }
    }

    pub fn subtree_root(&self) -> (r: Subtree<'_, T>)
        requires
            self.wf(),
        ensures
            r.tree() == self,
            r.at() == self.root(),
            r.term() == self.view_term(),
    {
        Subtree { nodes: self, root_id: self.root_id }
    }

    fn kid_at(&self, id: usize, i: usize) -> (r: usize)
        requires
            self.has(id),
            i < self.kids(id).len(),
        ensures
            r == self.kids(id)[i as int],
    {
        match &self.nodes[id] {
            Some(node) => node.children[i],
            None => 0,
        }
    }

    /// The term at a node: its value, and the terms at its children in order.
    pub proof fn lemma_term(t: &Self, id: usize)
        requires
            t.wf(),
            t.has(id),
        ensures
            t.term(id).value == t.node(id).val()@,
            t.term(id).children.len() == t.kids(id).len(),
            forall|i: int| 0 <= i < t.kids(id).len() ==> #[trigger] t.term(id).children[i] == t.term(t.kids(id)[i]),
            forall|i: int| 0 <= i < t.kids(id).len() ==> id < #[trigger] t.kids(id)[i] && t.has(t.kids(id)[i]),
    {
        reveal(Tree::term);
        reveal(Tree::node_wf);
        assert(t.node_wf(id));
    }

    /// `t1` is `t0` with one more child `n`, a fresh node, appended under `parent`;
    /// no other node present in `t0` changed.
    pub open(crate) spec fn appended(t0: &Self, t1: &Self, parent: usize, n: usize) -> bool {
        &&& t1.wf()
        &&& n == t0.slots()
        &&& t1.slots() > n
        &&& t1.root() == t0.root()
        &&& t1.has(n)
        &&& t1.has(parent)
        &&& parent != n
        &&& t1.kids(parent) == t0.kids(parent).push(n)
        &&& t1.node(parent).val() == t0.node(parent).val()
        &&& forall|x: usize| x != parent && #[trigger] t0.has(x) ==> t1.has(x) && t1.node(x) == t0.node(x)
    }

    /// Appending a child under `n`, itself appended under `parent`, keeps
    /// `n` appended and extends the term at `n` by the new child's term.
    pub proof fn lemma_append_step(t0: &Self, t1: &Self, t2: &Self, parent: usize, n: usize, m: usize)
        requires
            t0.wf(),
            t0.has(parent),
            Self::appended(t0, t1, parent, n),
            Self::appended(t1, t2, n, m),
        ensures
            Self::appended(t0, t2, parent, n),
            t2.term(n) == branch(t1.term(n).value, t1.term(n).children.push(t2.term(m))),
    {
        Self::lemma_term(t1, n);
        assert(t1.kids(n).push(m) =~= t1.kids(n).insert(t1.kids(n).len() as int, m));
        Self::lemma_extend(t1, t2, n, t1.kids(n).len() as int, m);
        assert(t1.term(n).children.insert(t1.kids(n).len() as int, t2.term(m)) =~= t1.term(n).children.push(t2.term(m)));
        assert forall|x: usize| x != parent && #[trigger] t0.has(x) implies t2.has(x) && t2.node(x) == t0.node(x) by {
            assert(t1.has(x));
        }
    }

    /// After node `p` gained the child `k` at position `idx`, and no other node
    /// present before changed, the term at `p` gained the term at `k` there.
    #[verifier::rlimit(100)]
    pub proof fn lemma_extend(t0: &Self, t1: &Self, p: usize, idx: int, k: usize)
        requires
            t0.wf(),
            t1.wf(),
            t0.has(p),
            t1.has(p),
            0 <= idx <= t0.kids(p).len(),
            t1.kids(p) == t0.kids(p).insert(idx, k),
            t1.node(p).val() == t0.node(p).val(),
            t1.slots() >= t0.slots(),
            forall|x: usize|
                x != p && #[trigger] t0.has(x) ==> t1.has(x) && t1.node(x).val() == t0.node(x).val()
                    && t1.kids(x) == t0.kids(x),
        ensures
            t1.term(p) == branch(t0.term(p).value, t0.term(p).children.insert(idx, t1.term(k))),
    {
        reveal(Tree::term);
        reveal(Tree::node_wf);
        let k0 = t0.kids(p);
        assert(t0.node_wf(p));
        assert(t1.node_wf(p));
        assert forall|i: int| 0 <= i < k0.len() implies t1.term(k0[i]) == t0.term(k0[i]) by {
            let c = k0[i];
            assert forall|y: usize| c <= y && #[trigger] t0.has(y) implies t1.has(y)
                && t1.node(y).val() == t0.node(y).val() && t1.kids(y) == t0.kids(y) by {}
            Self::lemma_frame(t0, t1, c);
        }
        assert(t1.kids(p)[idx] == k);
        assert forall|i: int| 0 <= i < t1.kids(p).len() implies #[trigger] t1.term(p).children[i]
            == t0.term(p).children.insert(idx, t1.term(k))[i] by {
            if i < idx {
                assert(t1.kids(p)[i] == k0[i]);
            } else if i > idx {
                assert(t1.kids(p)[i] == k0[i - 1]);
            }
        }
        assert(t1.term(p).children =~= t0.term(p).children.insert(idx, t1.term(k)));
    }

    /// Nodes below `x` that kept their values and children keep the term at `x`.
    pub proof fn lemma_frame_sub(t1: &Self, t2: &Self, x: usize)
        requires
            t1.wf(),
            t1.has(x),
            t2.slots() >= t1.slots(),
            forall|y: usize|
                #[trigger] t1.pre_ids(x).contains(y) ==> t2.has(y) && t2.node(y).val() == t1.node(y).val()
                    && t2.kids(y) == t1.kids(y),
        ensures
            t2.term(x) == t1.term(x),
        decreases t1.slots() - x,
    {
        reveal(Tree::term);
        reveal(Tree::node_wf);
        let kids = t1.kids(x);
        assert(t1.pre_ids(x)[0] == x);
        assert(t1.pre_ids(x).contains(x));
        assert forall|i: int| 0 <= i < kids.len() implies t2.term(kids[i]) == t1.term(kids[i]) by {
            assert(t1.node_wf(x));
            let c = kids[i];
            t1.lemma_pre_sub(x, i);
            Self::lemma_frame_sub(t1, t2, c);
        }
        assert(t2.term(x).children =~= t1.term(x).children);
    }

    /// One node of `t2`, as `lemma_removed` describes it, is well formed.
    #[verifier::rlimit(100)]
    proof fn lemma_removed_node(t0: &Self, t2: &Self, id: usize, p: usize, k: int, x: usize)
        requires
            t0.wf(),
            t0.has(id),
            t0.node(id).up() == Some(p),
            0 <= k < t0.kids(p).len(),
            t0.kids(p)[k] == id,
            t2.slots() == t0.slots(),
            t2.root() == t0.root(),
            forall|x: usize| #[trigger] t2.has(x) == (t0.has(x) && !t0.pre_ids(id).contains(x)),
            forall|x: usize| #[trigger] t2.has(x) && x != p ==> t2.node(x) == t0.node(x),
            t2.kids(p) == t0.kids(p).remove(k),
            t2.node(p).val() == t0.node(p).val(),
            t2.node(p).up() == t0.node(p).up(),
            t2.has(x),
        ensures
            t2.node_wf(x),
    {
        reveal(Tree::node_wf);
        let r = t0.pre_ids(id);
        assert(t0.node_wf(id));
        assert(t0.node_wf(p));
        if r.contains(p) {
            t0.lemma_pre_mem(id, p);
        }
        assert(t0.node_wf(x));
        assert forall|i: int| 0 <= i < t2.kids(x).len() implies {
            let c = #[trigger] t2.kids(x)[i];
            &&& x < c
            &&& t2.has(c)
            &&& t2.node(c).parent == Some(x)
        } by {
            let c = t2.kids(x)[i];
            if x == p {
                let ii = if i < k { i } else { i + 1 };
                assert(c == t0.kids(p)[ii]);
                assert(ii != k);
                assert(c != id);
                if r.contains(c) {
                    t0.lemma_pre_mem(id, c);
                    if r.contains(p) {
                        t0.lemma_pre_mem(id, p);
                    }
                }
                assert(t2.has(c));
                assert(t2.node(c) == t0.node(c));
            } else {
                assert(t2.node(x) == t0.node(x));
                assert(c == t0.kids(x)[i]);
                if r.contains(c) {
                    t0.lemma_pre_mem(id, c);
                }
                assert(t2.has(c));
                if c != p {
                    assert(t2.node(c) == t0.node(c));
                }
            }
        }
        assert forall|i: int, j: int| 0 <= i < j < t2.kids(x).len() implies t2.kids(x)[i] != t2.kids(x)[j] by {
            if x == p {
                let ii = if i < k { i } else { i + 1 };
                let jj = if j < k { j } else { j + 1 };
                assert(t2.kids(x)[i] == t0.kids(p)[ii]);
                assert(t2.kids(x)[j] == t0.kids(p)[jj]);
            }
        }
        if x != p {
            assert(t2.node(x) == t0.node(x));
        }
        assert(t2.node(x).parent == t0.node(x).parent);
        match t0.node(x).parent {
            Some(q) => {
                assert(t0.node_wf(q));
                let j = choose|j: int| 0 <= j < t0.kids(q).len() && t0.kids(q)[j] == x;
                if r.contains(q) {
                    t0.lemma_pre_sub(q, j);
                    assert(t0.pre_ids(x)[0] == x);
                    assert(t0.pre_ids(x).contains(x));
                    t0.lemma_pre_trans(id, q);
                }
                assert(t2.has(q));
                if q != p {
                    assert(t2.node(q) == t0.node(q));
                    assert(t2.kids(q)[j] == x);
                }
                if q == p {
                    assert(r[0] == id);
                    assert(r.contains(id));
                    assert(x != id);
                    assert(j != k);
                    if j < k {
                        assert(t2.kids(p)[j] == x);
                    } else {
                        assert(t2.kids(p)[j - 1] == x);
                    }
                }
            },
            None => {},
        }
    }

    /// The term at `p` in `t2`, as `lemma_removed` describes it.
    #[verifier::rlimit(100)]
    proof fn lemma_removed_term(t0: &Self, t2: &Self, id: usize, p: usize, k: int)
        requires
            t0.wf(),
            t0.has(id),
            t0.node(id).up() == Some(p),
            0 <= k < t0.kids(p).len(),
            t0.kids(p)[k] == id,
            t2.slots() == t0.slots(),
            t2.root() == t0.root(),
            forall|x: usize| #[trigger] t2.has(x) == (t0.has(x) && !t0.pre_ids(id).contains(x)),
            forall|x: usize| #[trigger] t2.has(x) && x != p ==> t2.node(x) == t0.node(x),
            t2.kids(p) == t0.kids(p).remove(k),
            t2.node(p).val() == t0.node(p).val(),
            t2.node(p).up() == t0.node(p).up(),
            t2.wf(),
        ensures
            t2.term(p) == branch(t0.term(p).value, t0.term(p).children.remove(k)),
    {
        Self::lemma_up(t0, id);
        Self::lemma_kids(t0, p);
        // the other children of `p` keep their terms
        let k0 = t0.kids(p);
        assert forall|i: int| 0 <= i < k0.len() && i != k implies t2.term(k0[i]) == t0.term(k0[i]) by {
            let c = k0[i];
            assert(c != id);
            Self::lemma_up(t0, c);
            assert forall|y: usize| #[trigger] t0.pre_ids(c).contains(y) implies t2.has(y)
                && t2.node(y).val() == t0.node(y).val() && t2.kids(y) == t0.kids(y) by {
                t0.lemma_pre_disjoint(c, id, y);
                t0.lemma_pre_mem(c, y);
                assert(p < c);
                assert(y != p);
                assert(t2.has(y));
                assert(t2.node(y) == t0.node(y));
            }
            Self::lemma_frame_sub(t0, t2, c);
        }
        reveal(Tree::term);
        assert forall|i: int| 0 <= i < t2.kids(p).len() implies #[trigger] t2.term(p).children[i]
            == t0.term(p).children.remove(k)[i] by {
            if i < k {
                assert(t2.kids(p)[i] == k0[i]);
            } else {
                assert(t2.kids(p)[i] == k0[i + 1]);
            }
        }
        assert(t2.term(p).children =~= t0.term(p).children.remove(k));
    }

    /// `t2` is `t0` without the subtree below `id`: its nodes are gone, and
    /// the parent `p` of `id` lost it as child number `k`. Then `t2` is well
    /// formed and the term at `p` lost that child.
    #[verifier::rlimit(100)]
    pub proof fn lemma_removed(t0: &Self, t2: &Self, id: usize, p: usize, k: int)
        requires
            t0.wf(),
            t0.has(id),
            t0.node(id).up() == Some(p),
            0 <= k < t0.kids(p).len(),
            t0.kids(p)[k] == id,
            t2.slots() == t0.slots(),
            t2.root() == t0.root(),
            forall|x: usize| #[trigger] t2.has(x) == (t0.has(x) && !t0.pre_ids(id).contains(x)),
            forall|x: usize| #[trigger] t2.has(x) && x != p ==> t2.node(x) == t0.node(x),
            t2.kids(p) == t0.kids(p).remove(k),
            t2.node(p).val() == t0.node(p).val(),
            t2.node(p).up() == t0.node(p).up(),
        ensures
            t2.wf(),
            t2.has(p),
            t2.term(p) == branch(t0.term(p).value, t0.term(p).children.remove(k)),
    {
        let r = t0.pre_ids(id);
        Self::lemma_up(t0, id);
        // the parent is not below `id`
        if r.contains(p) {
            t0.lemma_pre_mem(id, p);
        }
        assert(t2.has(p));
        // the root is not below `id`
        if r.contains(t0.root()) {
            t0.lemma_pre_mem(id, t0.root());
        }
        assert forall|x: usize| #[trigger] t2.has(x) implies t2.node_wf(x) by {
            Self::lemma_removed_node(t0, t2, id, p, k, x);
        }
        Self::lemma_removed_term(t0, t2, id, p, k);
    }

    /// The children of a node are distinct, present, after it, and name it as parent.
    pub proof fn lemma_kids(t: &Self, x: usize)
        requires
            t.wf(),
            t.has(x),
        ensures
            forall|i: int| 0 <= i < t.kids(x).len() ==> x < #[trigger] t.kids(x)[i] && t.has(t.kids(x)[i])
                && t.node(t.kids(x)[i]).up() == Some(x),
            forall|i: int, j: int| 0 <= i < j < t.kids(x).len() ==> t.kids(x)[i] != t.kids(x)[j],
    {
        reveal(Tree::node_wf);
        assert(t.node_wf(x));
    }

    /// The parent of a node comes before it and lists it among its children.
    pub proof fn lemma_up(t: &Self, x: usize)
        requires
            t.wf(),
            t.has(x),
        ensures
            t.node(x).up() matches Some(p) ==> p < x && t.has(p) && t.kids(p).contains(x),
            t.node(x).up() is None ==> x == t.root(),
    {
        reveal(Tree::node_wf);
        assert(t.node_wf(x));
    }

    /// The position of `id` among the children of its parent.
    fn child_idx(&self, id: usize) -> (r: Option<usize>)
        requires
            self.wf(),
            self.has(id),
        ensures
            self.node(id).up() is None ==> r is None,
            self.node(id).up() is Some ==> {
                let p = self.node(id).up()->Some_0;
                &&& r is Some
                &&& r->Some_0 < self.kids(p).len()
                &&& self.kids(p)[r->Some_0 as int] == id
                &&& r->Some_0 == self.kids(p).index_of(id)
            },
    {
        proof {
            reveal(Tree::node_wf);
            assert(self.node_wf(id));
        }
        let p = match &self.nodes[id] {
            Some(node) => node.parent,
            None => None,
        };
        match p {
            None => None,
            Some(p) => {
                proof {
                    assert(self.node_wf(p));
                }
                let len = self.children_len_at(p);
                let mut k: usize = 0;
                let ghost ks = self.kids(p);
                proof {
                    assert(ks.contains(id));
                    assert(forall|i: int, j: int| 0 <= i < j < ks.len() ==> ks[i] != ks[j]);
                }
                while k < len
                    invariant
                        0 <= k <= len,
                        len == self.kids(p).len(),
                        self.has(p),
                        ks == self.kids(p),
                        self.node(id).up() == Some(p),
                        ks.contains(id),
                        forall|i: int, j: int| 0 <= i < j < ks.len() ==> ks[i] != ks[j],
                        forall|j: int| 0 <= j < k ==> self.kids(p)[j] != id,
                    decreases len - k,
                {
                    if self.kid_at(p, k) == id {
                        proof {
                            assert forall|j: int| 0 <= j < self.kids(p).len() && self.kids(p)[j] == id
                                implies j == k by {}
                        }
                        return Some(k);
                    }
                    k += 1;
                }
                None
            },
        }
    }

    /// Removes the subtree below `id`: its nodes leave the arena, and the
    /// parent of `id` loses it from its children.
    pub fn remove(&mut self, id: usize)
        requires
            old(self).wf(),
            old(self).has(id),
            id != old(self).root(),
        ensures
            final(self).wf(),
            final(self).root() == old(self).root(),
            final(self).slots() == old(self).slots(),
            forall|x: usize| #[trigger] final(self).has(x) == (old(self).has(x) && !old(self).pre_ids(id).contains(x)),
            forall|x: usize| #[trigger] final(self).has(x) && x != old(self).node(id).up()->Some_0
                ==> final(self).node(x) == old(self).node(x),
            ({
                let p = old(self).node(id).up()->Some_0;
                let k = old(self).kids(p).index_of(id);
                &&& old(self).node(id).up() is Some
                &&& final(self).has(p)
                &&& final(self).kids(p) == old(self).kids(p).remove(k)
                &&& final(self).node(p).val() == old(self).node(p).val()
                &&& final(self).term(p) == branch(old(self).term(p).value, old(self).term(p).children.remove(k))
            }),
    {
        let ghost t0 = *self;
        proof {
            reveal(Tree::node_wf);
            assert(t0.node_wf(id));
        }
        let mut ids: Vec<usize> = Vec::new();
        self.collect_ids(id, &mut ids);
        assert(ids@ =~= t0.pre_ids(id));
        let pos = self.child_idx(id);
        let p = match &self.nodes[id] {
            Some(node) => match node.parent {
                Some(p) => p,
                None => 0,
            },
            None => 0,
        };
        let k = match pos {
            Some(k) => k,
            None => 0,
        };
        match &mut self.nodes[p] {
            Some(node) => {
                node.children.remove(k);
            },
            None => {},
        }
        let ghost t1 = *self;
        proof {
            assert(t0.node_wf(p));
            assert(t1.kids(p) == t0.kids(p).remove(k as int));
            assert forall|x: usize| #[trigger] t1.has(x) == t0.has(x) by {}
            if t0.pre_ids(id).contains(p) {
                t0.lemma_pre_mem(id, p);
            }
        }
        let mut i: usize = 0;
        while i < ids.len()
            invariant
                i <= ids@.len(),
                ids@ == t0.pre_ids(id),
                t0.wf(),
                t0.has(id),
                t0.slots() == t1.slots(),
                self.nodes@.len() == t1.nodes@.len(),
                self.root_id == t1.root_id,
                forall|x: usize| #[trigger] self.has(x) == (t1.has(x) && !ids@.subrange(0, i as int).contains(x)),
                forall|x: usize| #[trigger] self.has(x) ==> self.node(x) == t1.node(x),
            decreases ids@.len() - i,
        {
            let j = ids[i];
            proof {
                assert(t0.pre_ids(id)[i as int] == j);
                t0.lemma_pre_mem(id, j);
            }
            let ghost b = *self;
            self.nodes[j] = None;
            proof {
                assert(self.nodes@ == b.nodes@.update(j as int, None));
                assert forall|x: usize| #[trigger] self.has(x) == (b.has(x) && x != j) by {}
                assert forall|x: usize| #[trigger] self.has(x) implies self.node(x) == b.node(x) by {}
                let pre = ids@.subrange(0, i as int);
                let nxt = ids@.subrange(0, i + 1);
                assert(nxt =~= pre.push(j));
                assert forall|x: usize| #[trigger] self.has(x) == (t1.has(x) && !nxt.contains(x)) by {
                    if nxt.contains(x) && x != j {
                        let q = choose|q: int| 0 <= q < nxt.len() && nxt[q] == x;
                        assert(pre[q] == x);
                    }
                    if pre.contains(x) {
                        let q = choose|q: int| 0 <= q < pre.len() && pre[q] == x;
                        assert(nxt[q] == x);
                    }
                    if x == j {
                        assert(nxt[i as int] == x);
                    }
                }
            }
            i += 1;
        }
        proof {
            assert(ids@.subrange(0, i as int) =~= t0.pre_ids(id));
            assert(self.has(p));
            assert(self.node(p) == t1.node(p));
            assert forall|x: usize| #[trigger] self.has(x) == (t0.has(x) && !t0.pre_ids(id).contains(x)) by {
                assert(t1.has(x) == t0.has(x));
            }
            Self::lemma_removed(&t0, &*self, id, p, k as int);
        }
    }

    /// One node of `t1`, which is `t0` with the leaf `id` inserted as child
    /// number `idx` of `parent_id`, is well formed.
    #[verifier::rlimit(100)]
    proof fn lemma_inserted_node(t0: &Self, t1: &Self, parent_id: usize, idx: int, id: usize, x: usize)
        requires
            t0.wf(),
            t0.has(parent_id),
            0 <= idx <= t0.kids(parent_id).len(),
            id == t0.slots(),
            t1.slots() == t0.slots() + 1,
            t1.root() == t0.root(),
            t1.has(id),
            t1.node(id).up() == Some(parent_id),
            t1.kids(id).len() == 0,
            t1.has(parent_id),
            t1.kids(parent_id) == t0.kids(parent_id).insert(idx, id),
            t1.node(parent_id).up() == t0.node(parent_id).up(),
            forall|y: usize| y != parent_id && y != id ==> (#[trigger] t1.has(y) == t0.has(y)),
            forall|y: usize| y != parent_id && #[trigger] t0.has(y) ==> t1.node(y) == t0.node(y),
            t1.has(x),
        ensures
            t1.node_wf(x),
    {
        reveal(Tree::node_wf);
        if x == id {
            assert(t1.kids(parent_id).contains(id)) by {
                assert(t1.kids(parent_id)[idx as int] == id);
            }
        } else if x == parent_id {
            assert(t0.node_wf(x));
            assert forall|i: int| 0 <= i < t1.kids(x).len() implies {
                let c = #[trigger] t1.kids(x)[i];
                &&& x < c
                &&& t1.has(c)
                &&& t1.node(c).parent == Some(x)
            } by {
                if i < idx {
                    assert(t1.kids(x)[i] == t0.kids(x)[i]);
                } else if i > idx {
                    assert(t1.kids(x)[i] == t0.kids(x)[i - 1]);
                }
            }
            assert forall|i: int, j: int| 0 <= i < j < t1.kids(x).len() implies t1.kids(x)[i]
                != t1.kids(x)[j] by {
                if i < idx {
                    assert(t1.kids(x)[i] == t0.kids(x)[i]);
                } else if i > idx {
                    assert(t1.kids(x)[i] == t0.kids(x)[i - 1]);
                }
                if j < idx {
                    assert(t1.kids(x)[j] == t0.kids(x)[j]);
                } else if j > idx {
                    assert(t1.kids(x)[j] == t0.kids(x)[j - 1]);
                }
            }
            match t0.node(x).parent {
                Some(p) => { assert(t0.node_wf(p)); },
                None => {},
            }
        } else {
                        assert(t0.has(x));
            assert(t0.node_wf(x));
            assert forall|i: int| 0 <= i < t1.kids(x).len() implies {
                let c = #[trigger] t1.kids(x)[i];
                &&& x < c
                &&& t1.has(c)
                &&& t1.node(c).parent == Some(x)
            } by {
                let c = t1.kids(x)[i];
                assert(t0.has(c));
            }
            match t0.node(x).parent {
                Some(p) => {
                    if p == parent_id {
                        let k = choose|k: int| 0 <= k < t0.kids(p).len() && t0.kids(p)[k] == x;
                        if k < idx {
                            assert(t1.kids(p)[k] == x);
                        } else {
                            assert(t1.kids(p)[k + 1] == x);
                        }
                    }
                },
                None => {},
            }
        }
    }

    /// Adds a leaf holding `value` as child number `idx` of `parent_id`, and returns its id.
    #[verifier::rlimit(100)]
    pub fn insert(&mut self, parent_id: usize, idx: usize, value: T) -> (id: usize)
        requires
            old(self).wf(),
            old(self).has(parent_id),
            idx <= old(self).kids(parent_id).len(),
        ensures
            final(self).wf(),
            id == old(self).slots(),
            final(self).slots() == old(self).slots() + 1,
            final(self).root() == old(self).root(),
            final(self).has(id),
            final(self).node(id).val() == value,
            final(self).kids(id).len() == 0,
            final(self).has(parent_id),
            final(self).kids(parent_id) == old(self).kids(parent_id).insert(idx as int, id),
            final(self).node(parent_id).val() == old(self).node(parent_id).val(),
            forall|x: usize| x != parent_id && #[trigger] old(self).has(x) ==> final(self).has(x)
                && final(self).node(x) == old(self).node(x),
            final(self).term(id) == leaf(value@),
            final(self).term(parent_id) == branch(
                old(self).term(parent_id).value,
                old(self).term(parent_id).children.insert(idx as int, leaf(value@)),
            ),
            forall|x: usize| x < old(self).slots() ==> (#[trigger] final(self).has(x) == old(self).has(x)),
    {
        let ghost t0 = *self;
        let id = self.nodes.len();
        let new = Node { parent: Some(parent_id), children: Vec::new(), value };
        self.nodes.push(Some(new));
        match &mut self.nodes[parent_id] {
            Some(node) => {
                node.children.insert(idx, id);
            },
            None => {},
        }
        proof {
            reveal(Tree::node_wf);
            let t1 = *self;
            assert(t1.has(id));
            assert forall|x: usize| x != parent_id && #[trigger] t0.has(x) implies t1.has(x)
                && t1.node(x) == t0.node(x) by {}
            assert forall|y: usize| y != parent_id && y != id implies (#[trigger] t1.has(y) == t0.has(y)) by {}
            assert forall|x: usize| x < t0.slots() implies (#[trigger] t1.has(x) == t0.has(x)) by {}
            assert(t1.kids(parent_id) =~= t0.kids(parent_id).insert(idx as int, id));
            assert forall|x: usize| #[trigger] t1.has(x) implies t1.node_wf(x) by {
                Self::lemma_inserted_node(&t0, &t1, parent_id, idx as int, id, x);
            }
            Self::lemma_term(&t1, id);
            assert(t1.term(id).children =~= Seq::<Term<T::V>>::empty());
            Self::lemma_extend(&t0, &t1, parent_id, idx as int, id);
        }
        id
    }

    /// Adds a leaf holding `value` as the last child of `parent_id`, and returns its id.
    #[verifier::rlimit(100)]
    pub fn push(&mut self, parent_id: usize, value: T) -> (id: usize)
        requires
            old(self).wf(),
            old(self).has(parent_id),
        ensures
            final(self).wf(),
            id == old(self).slots(),
            final(self).slots() == old(self).slots() + 1,
            final(self).root() == old(self).root(),
            final(self).has(id),
            final(self).node(id).val() == value,
            final(self).kids(id).len() == 0,
            final(self).kids(parent_id) == old(self).kids(parent_id).push(id),
            forall|x: usize| x != parent_id && #[trigger] old(self).has(x) ==> final(self).has(x)
                && final(self).node(x) == old(self).node(x),
            final(self).term(id) == leaf(value@),
            final(self).term(parent_id) == branch(
                old(self).term(parent_id).value,
                old(self).term(parent_id).children.push(leaf(value@)),
            ),
            Tree::appended(&*old(self), &*final(self), parent_id, id),
    {
        let idx = self.children_len_at(parent_id);
        let ghost t0 = *self;
        proof {
            Self::lemma_term(&t0, parent_id);
        }
        let id = self.insert(parent_id, idx, value);
        assert(t0.term(parent_id).children.insert(idx as int, leaf(value@)) =~= t0.term(
            parent_id,
        ).children.push(leaf(value@)));
        assert(t0.kids(parent_id).insert(idx as int, id) =~= t0.kids(parent_id).push(id));
        id
    }
}


/// Node ids handed out one at a time, in pre-order.
pub struct Ids {
    ids: Vec<usize>,
    next_idx: usize,
}

impl Ids {
    /// The ids not handed out yet.
    pub closed spec fn rest(&self) -> Seq<usize> {
        if self.next_idx <= self.ids@.len() {
            self.ids@.subrange(self.next_idx as int, self.ids@.len() as int)
        } else {
            Seq::empty()
        }
    }

    pub fn next(&mut self) -> (r: Option<usize>)
        ensures
            old(self).rest().len() == 0 ==> r is None,
            old(self).rest().len() > 0 ==> r == Some(old(self).rest()[0]) && final(self).rest() == old(
                self,
            ).rest().drop_first(),
    {
        if self.next_idx < self.ids.len() {
            let id = self.ids[self.next_idx];
            assert(old(self).rest()[0] == self.ids@[self.next_idx as int]);
            self.next_idx += 1;
            assert(final(self).rest() =~= old(self).rest().drop_first());
            Some(id)
        } else {
            None
        }
    }
}

/// Views of a node's children, handed out one at a time.
pub struct SubtreeChildren<'a, T> {
    nodes: &'a Tree<T>,
    children: Vec<usize>,
    next_idx: usize,
}

impl<'a, T> SubtreeChildren<'a, T> {
    /// The ids of the children not handed out yet.
    pub closed spec fn rest(&self) -> Seq<usize> {
        if self.next_idx <= self.children@.len() {
            self.children@.subrange(self.next_idx as int, self.children@.len() as int)
        } else {
            Seq::empty()
        }
    }

    pub closed spec fn tree(&self) -> &'a Tree<T> {
        self.nodes
    }

    /// The tree is well formed and holds every child still to come.
    pub closed spec fn valid(&self) -> bool {
        &&& self.nodes.wf()
        &&& forall|i: int| 0 <= i < self.rest().len() ==> self.nodes.has(#[trigger] self.rest()[i])
    }

    pub fn next(&mut self) -> (r: Option<Subtree<'a, T>>)
        requires
            old(self).valid(),
        ensures
            final(self).valid(),
            final(self).tree() == old(self).tree(),
            old(self).rest().len() == 0 ==> r is None,
            old(self).rest().len() > 0 ==> r is Some && r->Some_0.at() == old(self).rest()[0]
                && r->Some_0.tree() == old(self).tree() && final(self).rest() == old(self).rest().drop_first(),
    {
        if self.next_idx < self.children.len() {
            let id = self.children[self.next_idx];
            assert(old(self).rest()[0] == self.children@[self.next_idx as int]);
            assert(self.nodes.has(old(self).rest()[0]));
            self.next_idx += 1;
            assert(final(self).rest() =~= old(self).rest().drop_first());
            assert forall|i: int| 0 <= i < final(self).rest().len() implies self.nodes.has(#[trigger] final(self).rest()[i]) by {
                assert(final(self).rest()[i] == old(self).rest()[i + 1]);
            }
            Some(Subtree { nodes: self.nodes, root_id: id })
        } else {
            None
        }
    }
}

/// A read-only view of the subtree below one node of a tree.
#[derive(Debug)]
pub struct Subtree<'a, T> {
    pub(crate) nodes: &'a Tree<T>,
    pub(crate) root_id: usize,
}

impl<'a, T> Clone for Subtree<'a, T> {
    fn clone(&self) -> (r: Self)
        ensures
            r == *self,
    {
        proof {
            use_type_invariant(self);
        }
        Subtree { nodes: self.nodes, root_id: self.root_id }
    }
}

impl<'a, T> Copy for Subtree<'a, T> {}

impl<'a, T> Subtree<'a, T> {
    pub open(crate) spec fn tree(&self) -> &'a Tree<T> {
        self.nodes
    }

    pub open(crate) spec fn at(&self) -> usize {
        self.root_id
    }

    #[verifier::type_invariant]
    pub(crate) open spec fn wf(&self) -> bool {
        self.nodes.wf() && self.nodes.has(self.root_id)
    }

    pub open(crate) spec fn valid(&self) -> bool {
        self.nodes.wf() && self.nodes.has(self.root_id)
    }

}

impl<'a, T: View> Subtree<'a, T> {
    /// The term that the view shows.
    pub open(crate) spec fn term(&self) -> Term<T::V> {
        self.nodes.term(self.root_id)
    }

    pub fn get_root(&self) -> (r: &'a T)
        ensures
            self.valid(),
            r == self.tree().node(self.at()).val(),
            r@ == self.term().value,
    {
        proof {
            use_type_invariant(self);
            Tree::lemma_term(self.nodes, self.root_id);
        }
        match &self.nodes.nodes[self.root_id] {
            Some(node) => &node.value,
            None => &self.nodes.nodes[self.root_id].as_ref().unwrap().value,
        }
    }

    pub fn children_len(&self) -> (r: usize)
        ensures
            r == self.term().children.len(),
    {
        proof {
            use_type_invariant(self);
            Tree::lemma_term(self.nodes, self.root_id);
        }
        self.nodes.children_len_at(self.root_id)
    }

    pub fn is_leaf(&self) -> (r: bool)
        ensures
            r == (self.term().children.len() == 0),
    {
        proof {
            use_type_invariant(self);
            Tree::lemma_term(self.nodes, self.root_id);
        }
        self.nodes.children_len_at(self.root_id) == 0
    }

    /// Views of the children, in order.
    pub fn children_root(&self) -> (r: SubtreeChildren<'a, T>)
        ensures
            r.valid(),
            r.tree() == self.tree(),
            r.rest() == self.tree().kids(self.at()),
    {
        proof {
            use_type_invariant(self);
            reveal(Tree::node_wf);
            assert(self.nodes.node_wf(self.root_id));
        }
        let kids = match &self.nodes.nodes[self.root_id] {
            Some(node) => node.children(),
            None => Children::new(&Vec::new()),
        };
        let mut children: Vec<usize> = Vec::new();
        let mut k = kids;
        let n = self.nodes.children_len_at(self.root_id);
        let mut i: usize = 0;
        while i < n
            invariant
                i <= n,
                n == self.nodes.kids(self.root_id).len(),
                k.inv(),
                k.rest() == self.nodes.kids(self.root_id).subrange(i as int, n as int),
                children@ == self.nodes.kids(self.root_id).subrange(0, i as int),
            decreases n - i,
        {
            match k.next() {
                Some(c) => {
                    children.push(c);
                },
                None => {},
            }
            assert(children@ =~= self.nodes.kids(self.root_id).subrange(0, i + 1));
            assert(k.rest() =~= self.nodes.kids(self.root_id).subrange(i + 1, n as int));
            i += 1;
        }
        assert(children@ =~= self.nodes.kids(self.root_id));
        let r = SubtreeChildren { nodes: self.nodes, children, next_idx: 0 };
        assert(r.rest() =~= self.nodes.kids(self.root_id));
        r
    }

    /// The ids below this view's root, in pre-order.
    pub fn ids(&self) -> (r: Ids)
        ensures
            r.rest() == self.tree().pre_ids(self.at()),
    {
        proof {
            use_type_invariant(self);
        }
        self.nodes.ids_sub(self.root_id)
    }

    /// The view of child number `i`.
    pub fn child(&self, i: usize) -> (r: Subtree<'a, T>)
        requires
            i < self.term().children.len(),
        ensures
            r.tree() == self.tree(),
            r.valid(),
            r.at() > self.at(),
            r.at() == self.tree().kids(self.at())[i as int],
            r.term() == self.term().children[i as int],
    {
        proof {
            use_type_invariant(self);
            Tree::lemma_term(self.nodes, self.root_id);
        }
        let id = self.nodes.kid_at(self.root_id, i);
        proof {
            assert(self.nodes.node_wf(self.root_id));
            assert(self.nodes.kids(self.root_id)[i as int] == id);
        }
        Subtree { nodes: self.nodes, root_id: id }
    }
}

/// Values that a tree can print.
pub trait Shown {
    /// The printed form of the value.
    spec fn shown(&self) -> Seq<char>;

    fn show(&self) -> (r: String)
        ensures
            r@ == self.shown(),
    ;
}

impl Shown for String {
    open spec fn shown(&self) -> Seq<char> {
        self@
    }

    fn show(&self) -> (r: String) {
        self.clone()
    }
}

impl Shown for i32 {
    open spec fn shown(&self) -> Seq<char> {
        if *self < 0 {
            seq!['-'] + crate::text::dec_string((-(*self as int)) as nat)
        } else {
            crate::text::dec_string(*self as nat)
        }
    }

    fn show(&self) -> (r: String) {
        let mut r = String::new();
        if *self < 0 {
            crate::text::push_char(&mut r, '-');
            let m = (-(*self as i64)) as usize;
            crate::text::push_decimal(&mut r, m);
        } else {
            crate::text::push_decimal(&mut r, *self as usize);
        }
        r
    }
}

impl<T: View + Shown> Tree<T> {
    /// The term below `id` written as `value(child child ...)`; a leaf is its value.
    pub open(crate) spec fn printed(&self, id: usize) -> Seq<char>
        decreases self.slots() - id, 1int,
    {
        let v = self.node(id).val().shown();
        if self.kids(id).len() == 0 {
            v
        } else {
            v + seq!['('] + self.printed_kids(id, 0) + seq![')']
        }
    }

    /// The children of `id` from number `i` on, printed and separated by spaces.
    pub open(crate) spec fn printed_kids(&self, id: usize, i: int) -> Seq<char>
        decreases self.slots() - id, 0int, self.kids(id).len() - i,
    {
        if 0 <= i < self.kids(id).len() && id < self.kids(id)[i] < self.slots() {
            (if i > 0 { seq![' '] } else { Seq::empty() }) + self.printed(self.kids(id)[i]) + self.printed_kids(id, i + 1)
        } else {
            Seq::empty()
        }
    }

    fn write_sub(&self, id: usize, out: &mut String)
        requires
            self.wf(),
            self.has(id),
        ensures
            final(out)@ == old(out)@ + self.printed(id),
        decreases self.slots() - id,
    {
        proof {
            reveal(Tree::node_wf);
            assert(self.node_wf(id));
        }
        let ghost o0 = out@;
        match &self.nodes[id] {
            Some(node) => {
                let v = node.value.show();
                crate::text::push_all(out, v.as_str());
                let n = node.children.len();
                if n > 0 {
                    crate::text::push_char(out, '(');
                    let mut i: usize = 0;
                    assert(o0 + self.printed(id) =~= out@ + self.printed_kids(id, 0) + seq![')']);
                    while i < n
                        invariant
                            self.wf(),
                            self.has(id),
                            n == self.kids(id).len(),
                            i <= n,
                            forall|j: int| 0 <= j < n ==> id < #[trigger] self.kids(id)[j] && self.has(self.kids(id)[j]),
                            o0 + self.printed(id) == out@ + self.printed_kids(id, i as int) + seq![')'],
                        decreases n - i,
                    {
                        let ghost before = out@;
                        if i > 0 {
                            crate::text::push_char(out, ' ');
                        }
                        let c = self.kid_at(id, i);
                        self.write_sub(c, out);
                        proof {
                            let sp: Seq<char> = if i > 0 { seq![' '] } else { Seq::empty() };
                            assert(out@ =~= before + sp + self.printed(c));
                            assert(before + self.printed_kids(id, i as int) + seq![')'] =~= out@ + self.printed_kids(id, i + 1) + seq![')']);
                        }
                        i += 1;
                    }
                    crate::text::push_char(out, ')');
                    assert(out@ =~= o0 + self.printed(id));
                } else {
                    assert(out@ =~= o0 + self.printed(id));
                }
            },
            None => {},
        }
    }

    /// The whole tree written as `value(child child ...)`.
    pub fn to_string(&self) -> (r: String)
        requires
            self.wf(),
        ensures
            r@ == self.printed(self.root()),
    {
        let mut out = String::new();
        self.write_sub(self.root_id, &mut out);
        assert(out@ =~= self.printed(self.root()));
        out
    }
}

impl Tree<String> {
    /// Copies the term of `sub` in as child number `idx` of `parent`; returns the new child's id.
    fn insert_copy(&mut self, parent: usize, idx: usize, sub: Subtree<'_, String>) -> (n: usize)
        requires
            old(self).wf(),
            old(self).has(parent),
            idx <= old(self).kids(parent).len(),
        ensures
            final(self).wf(),
            n == old(self).slots(),
            final(self).slots() > n,
            final(self).root() == old(self).root(),
            final(self).has(n),
            final(self).has(parent),
            final(self).kids(parent) == old(self).kids(parent).insert(idx as int, n),
            final(self).node(parent).val() == old(self).node(parent).val(),
            forall|x: usize| x != parent && #[trigger] old(self).has(x) ==> final(self).has(x)
                && final(self).node(x) == old(self).node(x),
            final(self).term(n) == sub.term(),
            final(self).term(parent) == branch(
                old(self).term(parent).value,
                old(self).term(parent).children.insert(idx as int, sub.term()),
            ),
            final(self).slots() == old(self).slots() + sub.tree().pre_ids(sub.at()).len(),
            forall|x: usize| x < old(self).slots() ==> (#[trigger] final(self).has(x) == old(self).has(x)),
            forall|x: usize| old(self).slots() <= x < final(self).slots() ==> #[trigger] final(self).has(x),
        decreases sub.tree().slots() - sub.at(),
    {
        let ghost t0 = *self;
        let value = sub.get_root().clone();
        let n = self.insert(parent, idx, value);
        let len = sub.children_len();
        let mut i: usize = 0;
        let ghost st = sub.tree();
        let ghost at = sub.at();
        proof {
            assert(self.term(n).children =~= sub.term().children.subrange(0, 0));
            Tree::lemma_term(st, at);
        }
        while i < len
            invariant
                self.wf(),
                self.has(n),
                self.has(parent),
                parent != n,
                n == t0.slots(),
                self.slots() > n,
                self.root() == t0.root(),
                0 <= i <= len,
                len == sub.term().children.len(),
                self.kids(parent) == t0.kids(parent).insert(idx as int, n),
                self.node(parent).val() == t0.node(parent).val(),
                self.kids(n).len() == i,
                forall|x: usize| x != parent && #[trigger] t0.has(x) ==> self.has(x) && self.node(x)
                    == t0.node(x),
                self.term(n) == branch(sub.term().value, sub.term().children.subrange(0, i as int)),
                st == sub.tree(),
                at == sub.at(),
                st.wf(),
                st.has(at),
                len == st.kids(at).len(),
                forall|j: int| 0 <= j < st.kids(at).len() ==> at < #[trigger] st.kids(at)[j] && st.has(st.kids(at)[j]),
                self.slots() + st.pre_ids_from(at, i as int).len() == t0.slots() + 1 + st.pre_ids_from(at, 0).len(),
                forall|x: usize| x < t0.slots() ==> (#[trigger] self.has(x) == t0.has(x)),
                forall|x: usize| t0.slots() <= x < self.slots() ==> #[trigger] self.has(x),
            decreases len - i,
        {
            let c = sub.child(i);
            let ghost t1 = *self;
            proof {
                Tree::lemma_term(&t1, n);
            }
            self.insert_copy(n, i, c);
            proof {
                assert(st.pre_ids_from(at, i as int) == st.pre_ids(c.at()) + st.pre_ids_from(at, i + 1));
                assert forall|x: usize| x < t0.slots() implies (#[trigger] self.has(x) == t0.has(x)) by {
                    assert(t1.has(x) == t0.has(x));
                }
                assert forall|x: usize| t0.slots() <= x < self.slots() implies #[trigger] self.has(x) by {
                    if x < t1.slots() {
                        assert(t1.has(x));
                    }
                }
            }
            proof {
                assert(sub.term().children.subrange(0, i as int).insert(i as int, c.term())
                    =~= sub.term().children.subrange(0, i + 1));
                Tree::lemma_term(&*self, n);
                assert forall|x: usize| x != parent && #[trigger] t0.has(x) implies self.has(x)
                    && self.node(x) == t0.node(x) by {
                    assert(t1.has(x));
                }
            }
            i += 1;
        }
        proof {
            assert(sub.term().children.subrange(0, len as int) =~= sub.term().children);
            Tree::lemma_extend(&t0, &*self, parent, idx as int, n);
            assert(st.pre_ids(at).len() == 1 + st.pre_ids_from(at, 0).len());
        }
        n
    }

    /// Copies the term of `sub` in as the last child of `parent`; returns the new child's id.
    pub(crate) fn push_copy(&mut self, parent: usize, sub: Subtree<'_, String>) -> (n: usize)
        requires
            old(self).wf(),
            old(self).has(parent),
        ensures
            Tree::appended(&*old(self), &*final(self), parent, n),
            final(self).term(n) == sub.term(),
    {
        proof {
            Tree::lemma_term(&*self, parent);
        }
        let idx = self.children_len_at(parent);
        let n = self.insert_copy(parent, idx, sub);
        assert(old(self).kids(parent).insert(idx as int, n) =~= old(self).kids(parent).push(n));
        n
    }

    /// Copies the term of `subtree` in as the last child of `id`.
    pub fn push_sub(&mut self, id: usize, subtree: Subtree<'_, String>)
        requires
            old(self).wf(),
            old(self).has(id),
        ensures
            final(self).wf(),
            final(self).root() == old(self).root(),
            forall|x: usize| x != id && #[trigger] old(self).has(x) ==> final(self).has(x)
                && final(self).node(x) == old(self).node(x),
            final(self).has(id),
            final(self).term(id) == branch(
                old(self).term(id).value,
                old(self).term(id).children.push(subtree.term()),
            ),
            final(self).slots() == old(self).slots() + subtree.tree().pre_ids(subtree.at()).len(),
            forall|x: usize| x < old(self).slots() ==> (#[trigger] final(self).has(x) == old(self).has(x)),
            forall|x: usize| old(self).slots() <= x < final(self).slots() ==> #[trigger] final(self).has(x),
    {
        proof {
            Tree::lemma_term(&*self, id);
        }
        let idx = self.children_len_at(id);
        let ghost t0 = *self;
        self.insert_copy(id, idx, subtree);
        assert(t0.term(id).children.insert(idx as int, subtree.term()) =~= t0.term(id).children.push(
            subtree.term(),
        ));
    }

    /// Copies the term of `subtree` in as child number `idx` of `id`.
    pub fn insert_sub(&mut self, id: usize, idx: usize, subtree: Subtree<'_, String>)
        requires
            old(self).wf(),
            old(self).has(id),
            idx <= old(self).term(id).children.len(),
        ensures
            final(self).wf(),
            final(self).root() == old(self).root(),
            forall|x: usize| x != id && #[trigger] old(self).has(x) ==> final(self).has(x)
                && final(self).node(x) == old(self).node(x),
            final(self).has(id),
            final(self).term(id) == branch(
                old(self).term(id).value,
                old(self).term(id).children.insert(idx as int, subtree.term()),
            ),
    {
        proof {
            Tree::lemma_term(&*self, id);
        }
        self.insert_copy(id, idx, subtree);
    }

    /// Replaces the subtree at `id` by a copy of `src`, in the same position
    /// under the parent of `id`; when `id` has no parent, the whole tree
    /// becomes a copy of `src`.
    #[verifier::rlimit(100)]
    pub fn paste(&mut self, id: usize, src: Subtree<'_, String>)
        requires
            old(self).wf(),
            old(self).has(id),
        ensures
            final(self).wf(),
            old(self).node(id).up() is None ==> final(self).view_term() == src.term(),
            old(self).node(id).up() is Some ==> {
                let p = old(self).node(id).up()->Some_0;
                let k = old(self).kids(p).index_of(id);
                &&& final(self).root() == old(self).root()
                &&& final(self).has(p)
                &&& final(self).term(p) == branch(
                    old(self).term(p).value,
                    old(self).term(p).children.update(k, src.term()),
                )
                &&& forall|x: usize|
                    x != p && #[trigger] old(self).has(x) && !old(self).pre_ids(id).contains(x) ==> final(self).has(x)
                        && final(self).node(x) == old(self).node(x)
            },
    {
        let ghost t0 = *self;
        proof {
            reveal(Tree::node_wf);
            assert(t0.node_wf(id));
        }
        let parent = match &self.nodes[id] {
            Some(node) => node.parent,
            None => None,
        };
        match parent {
            Some(p) => {
                let k = match self.child_idx(id) {
                    Some(k) => k,
                    None => 0,
                };
                proof {
                    Tree::lemma_term(&t0, p);
                }
                self.remove(id);
                let ghost t1 = *self;
                self.insert_sub(p, k, src);
                assert(t0.term(p).children.remove(k as int).insert(k as int, src.term())
                    =~= t0.term(p).children.update(k as int, src.term()));
                assert forall|x: usize|
                    x != p && #[trigger] t0.has(x) && !t0.pre_ids(id).contains(x) implies self.has(x)
                        && self.node(x) == t0.node(x) by {
                    assert(t1.has(x));
                    assert(t1.node(x) == t0.node(x));
                }
            },
            None => {
                *self = src.to_owned();
            },
        }
    }

    /// Detaches the subtree below `id` and returns a copy of it as a tree of its own.
    pub fn cut_off(&mut self, id: usize) -> (r: Self)
        requires
            old(self).wf(),
            old(self).has(id),
            id != old(self).root(),
        ensures
            r.wf(),
            r.view_term() == old(self).term(id),
            final(self).wf(),
            final(self).root() == old(self).root(),
            old(self).node(id).up() is Some ==> {
                let p = old(self).node(id).up()->Some_0;
                let k = old(self).kids(p).index_of(id);
                &&& final(self).has(p)
                &&& final(self).term(p) == branch(old(self).term(p).value, old(self).term(p).children.remove(k))
            },
    {
        let r = self.clone_sub(id);
        self.remove(id);
        r
    }

    /// Copies the term of `sub`, with every subterm equal to `from` replaced by
    /// `to`, in as the last child of `parent`; returns the new child's id.
    fn push_replaced(
        &mut self,
        parent: usize,
        sub: Subtree<'_, String>,
        from: Subtree<'_, String>,
        to: Subtree<'_, String>,
    ) -> (n: usize)
        requires
            old(self).wf(),
            old(self).has(parent),
        ensures
            final(self).wf(),
            n == old(self).slots(),
            final(self).slots() > n,
            final(self).root() == old(self).root(),
            final(self).has(n),
            final(self).has(parent),
            final(self).kids(parent) == old(self).kids(parent).push(n),
            final(self).node(parent).val() == old(self).node(parent).val(),
            forall|x: usize| x != parent && #[trigger] old(self).has(x) ==> final(self).has(x)
                && final(self).node(x) == old(self).node(x),
            final(self).term(n) == replace_all(sub.term(), from.term(), to.term()),
        decreases sub.tree().slots() - sub.at(),
    {
        proof {
            Tree::lemma_term(&*self, parent);
        }
        let idx = self.children_len_at(parent);
        if subtree_eq(sub, from) {
            let n = self.insert_copy(parent, idx, to);
            assert(old(self).kids(parent).insert(idx as int, n) =~= old(self).kids(parent).push(n));
            return n;
        }
        let ghost t0 = *self;
        let n = self.insert(parent, idx, sub.get_root().clone());
        assert(t0.kids(parent).insert(idx as int, n) =~= t0.kids(parent).push(n));
        let len = sub.children_len();
        let ghost goal = replace_all(sub.term(), from.term(), to.term());
        proof {
            Tree::lemma_term(&*self, n);
            assert(self.term(n).children =~= goal.children.subrange(0, 0));
        }
        let mut i: usize = 0;
        while i < len
            invariant
                self.wf(),
                self.has(n),
                self.has(parent),
                parent != n,
                n == t0.slots(),
                self.slots() > n,
                self.root() == t0.root(),
                0 <= i <= len,
                len == sub.term().children.len(),
                goal == replace_all(sub.term(), from.term(), to.term()),
                goal.children.len() == len,
                sub.term() != from.term(),
                self.kids(parent) == t0.kids(parent).push(n),
                self.node(parent).val() == t0.node(parent).val(),
                self.kids(n).len() == i,
                forall|x: usize| x != parent && #[trigger] t0.has(x) ==> self.has(x) && self.node(x)
                    == t0.node(x),
                self.term(n) == branch(goal.value, goal.children.subrange(0, i as int)),
            decreases len - i,
        {
            let c = sub.child(i);
            let ghost t1 = *self;
            proof {
                Tree::lemma_term(&t1, n);
            }
            let m = self.push_replaced(n, c, from, to);
            proof {
                assert(t1.kids(n).push(m) =~= t1.kids(n).insert(i as int, m));
                Tree::lemma_extend(&t1, &*self, n, i as int, m);
                assert(goal.children[i as int] == self.term(m));
                assert(goal.children.subrange(0, i as int).insert(i as int, self.term(m))
                    =~= goal.children.subrange(0, i + 1));
                Tree::lemma_term(&*self, n);
                assert forall|x: usize| x != parent && #[trigger] t0.has(x) implies self.has(x)
                    && self.node(x) == t0.node(x) by {
                    assert(t1.has(x));
                }
            }
            i += 1;
        }
        proof {
            assert(goal.children.subrange(0, len as int) =~= goal.children);
        }
        n
    }

    /// Replaces, outermost first, every subtree equal to `from` by a copy of `to`.
    pub fn replace(&mut self, from: Subtree<'_, String>, to: Subtree<'_, String>)
        requires
            old(self).wf(),
        ensures
            final(self).wf(),
            final(self).view_term() == replace_all(old(self).view_term(), from.term(), to.term()),
    {
        let mut out = Tree::new(String::new());
        let n = out.push_replaced(0, self.subtree_root(), from, to);
        *self = out.clone_sub(n);
    }

    /// Copies the term of `tree` in as the last child of `id`.
    pub fn push_tree(&mut self, id: usize, tree: Self)
        requires
            old(self).wf(),
            old(self).has(id),
            tree.wf(),
        ensures
            final(self).wf(),
            final(self).root() == old(self).root(),
            final(self).has(id),
            final(self).term(id) == branch(
                old(self).term(id).value,
                old(self).term(id).children.push(tree.view_term()),
            ),
    {
        self.push_sub(id, tree.subtree_root());
    }

    /// Appends under `parent` a copy of the term of `sub` with every value
    /// equal to `from` changed to `to`; returns the new child's id.
    fn push_renamed(&mut self, parent: usize, sub: Subtree<'_, String>, from: &String, to: &String) -> (n: usize)
        requires
            old(self).wf(),
            old(self).has(parent),
        ensures
            Tree::appended(&*old(self), &*final(self), parent, n),
            final(self).term(n) == rename_all(sub.term(), from@, to@),
        decreases sub.tree().slots() - sub.at(),
    {
        let v = sub.get_root();
        let value = if *v == *from { to.clone() } else { v.clone() };
        let ghost t0 = *self;
        let n = self.push(parent, value);
        let len = sub.children_len();
        let ghost goal = rename_all(sub.term(), from@, to@);
        proof {
            Tree::lemma_term(&*self, n);
            assert(self.term(n).children =~= goal.children.subrange(0, 0));
        }
        let mut i: usize = 0;
        while i < len
            invariant
                i <= len,
                len == sub.term().children.len(),
                goal == rename_all(sub.term(), from@, to@),
                t0.wf(),
                t0.has(parent),
                Tree::appended(&t0, &*self, parent, n),
                self.term(n) == branch(goal.value, goal.children.subrange(0, i as int)),
            decreases len - i,
        {
            let ghost ta = *self;
            let m = self.push_renamed(n, sub.child(i), from, to);
            proof {
                Tree::lemma_append_step(&t0, &ta, &*self, parent, n, m);
                assert(self.term(n).children =~= goal.children.subrange(0, i + 1));
            }
            i += 1;
        }
        assert(goal.children.subrange(0, len as int) =~= goal.children);
        n
    }

    /// Changes every value equal to `from` to `to`.
    pub fn replace_value(&mut self, from: &String, to: &String)
        requires
            old(self).wf(),
        ensures
            final(self).wf(),
            final(self).view_term() == rename_all(old(self).view_term(), from@, to@),
    {
        let mut out = Tree::new(String::new());
        let n = out.push_renamed(0, self.subtree_root(), from, to);
        *self = out.clone_sub(n);
    }

    /// A fresh tree holding a copy of the term below `id`.
    pub fn clone_sub(&self, id: usize) -> (r: Self)
        requires
            self.wf(),
            self.has(id),
        ensures
            r.wf(),
            r.view_term() == self.term(id),
    {
        self.subtree(id).to_owned()
    }
}

impl<'a> Subtree<'a, String> {
    /// A fresh tree holding a copy of the term that the view shows.
    pub fn to_owned(&self) -> (r: Tree<String>)
        ensures
            r.wf(),
            r.view_term() == self.term(),
            r.slots() == self.tree().pre_ids(self.at()).len(),
            forall|x: usize| x < r.slots() ==> #[trigger] r.has(x),
    {
        let mut t = Tree::new(self.get_root().clone());
        let len = self.children_len();
        let mut i: usize = 0;
        let ghost st = self.tree();
        let ghost at = self.at();
        proof {
            assert(t.view_term().children =~= self.term().children.subrange(0, 0));
            use_type_invariant(self);
            Tree::lemma_term(st, at);
        }
        while i < len
            invariant
                t.wf(),
                t.root() == 0,
                0 <= i <= len,
                len == self.term().children.len(),
                t.view_term() == branch(self.term().value, self.term().children.subrange(0, i as int)),
                st == self.tree(),
                at == self.at(),
                st.wf(),
                st.has(at),
                len == st.kids(at).len(),
                forall|j: int| 0 <= j < st.kids(at).len() ==> at < #[trigger] st.kids(at)[j] && st.has(st.kids(at)[j]),
                t.slots() + st.pre_ids_from(at, i as int).len() == 1 + st.pre_ids_from(at, 0).len(),
                forall|x: usize| x < t.slots() ==> #[trigger] t.has(x),
            decreases len - i,
        {
            let c = self.child(i);
            let ghost t1 = t;
            t.push_sub(0, c);
            proof {
                assert(st.pre_ids_from(at, i as int) == st.pre_ids(c.at()) + st.pre_ids_from(at, i + 1));
                assert forall|x: usize| x < t.slots() implies #[trigger] t.has(x) by {
                    if x < t1.slots() {
                        assert(t1.has(x));
                    }
                }
            }
            assert(self.term().children.subrange(0, i as int).push(c.term())
                =~= self.term().children.subrange(0, i + 1));
            i += 1;
        }
        assert(self.term().children.subrange(0, len as int) =~= self.term().children);
        assert(st.pre_ids(at).len() == 1 + st.pre_ids_from(at, 0).len());
        t
    }
}

/// Whether two views show the same term: equal values, child counts, and children in order.
pub fn subtree_eq(a: Subtree<'_, String>, b: Subtree<'_, String>) -> (r: bool)
    ensures
        r == (a.term() == b.term()),
    decreases a.tree().slots() - a.at(),
{
    if *a.get_root() != *b.get_root() {
        return false;
    }
    let len = a.children_len();
    if len != b.children_len() {
        return false;
    }
    let mut i: usize = 0;
    while i < len
        invariant
            0 <= i <= len,
            len == a.term().children.len(),
            len == b.term().children.len(),
            forall|j: int| 0 <= j < i ==> a.term().children[j] == b.term().children[j],
        decreases len - i,
    {
        if !subtree_eq(a.child(i), b.child(i)) {
            return false;
        }
        i += 1;
    }
    assert(a.term().children =~= b.term().children);
    true
}

impl<'a> PartialEq for Subtree<'a, String> {
    fn eq(&self, other: &Self) -> (r: bool) {
        subtree_eq(*self, *other)
    }
}

impl<'a> vstd::std_specs::cmp::PartialEqSpecImpl for Subtree<'a, String> {
    open spec fn obeys_eq_spec() -> bool {
        true
    }

    open spec fn eq_spec(&self, other: &Self) -> bool {
        self.term() == other.term()
    }
}

/// Why a tree's text did not read.
#[derive(Debug, Clone, Copy, PartialEq, Eq, Structural)]
pub enum TreeTextError {
    /// An opening bracket with no node before it to be the parent.
    MissingParent,
    /// A closing bracket without an opening one.
    MissingParenL,
    /// The text holds no tree.
    Empty,
    /// The text holds more than one tree.
    Multiple,
}

/// The state of reading trees from text: the trees so far, the positions
/// where the children of an open bracket start, and the word being read.
pub struct TextState {
    pub trees: Seq<Term<Seq<char>>>,
    pub opens: Seq<int>,
    pub word: Seq<char>,
}

/// The trees so far, with the pending word, if any, as one more leaf.
pub open spec fn flush(st: TextState) -> TextState {
    if st.word.len() > 0 {
        TextState { trees: st.trees.push(leaf(st.word)), word: Seq::empty(), ..st }
    } else {
        st
    }
}

/// One character of tree text: white space ends a word; `(` opens the
/// children of the tree before it; `)` makes the trees since the matching
/// `(` children of that tree; any other character extends the word.
pub open spec fn text_step(st: TextState, c: char) -> Result<TextState, TreeTextError> {
    if crate::text::white_space(c) {
        Ok(flush(st))
    } else if c == '(' {
        let f = flush(st);
        if f.trees.len() == 0 || (f.opens.len() > 0 && f.opens.last() == f.trees.len()) {
            Err(TreeTextError::MissingParent)
        } else {
            Ok(TextState { opens: f.opens.push(f.trees.len() as int), ..f })
        }
    } else if c == ')' {
        let f = flush(st);
        if f.opens.len() == 0 {
            Err(TreeTextError::MissingParenL)
        } else {
            let k = f.opens.last();
            let p = f.trees[k - 1];
            Ok(TextState {
                trees: f.trees.subrange(0, k - 1).push(
                    branch(p.value, p.children + f.trees.subrange(k, f.trees.len() as int)),
                ),
                opens: f.opens.drop_last(),
                word: Seq::empty(),
            })
        }
    } else {
        Ok(TextState { word: st.word.push(c), ..st })
    }
}

/// Reads `cs[i..]` from state `st`.
pub open spec fn text_run(st: TextState, cs: Seq<char>, i: int) -> Result<TextState, TreeTextError>
    decreases cs.len() - i,
{
    if i < 0 || i >= cs.len() {
        Ok(flush(st))
    } else {
        match text_step(st, cs[i]) {
            Ok(s2) => text_run(s2, cs, i + 1),
            Err(e) => Err(e),
        }
    }
}

/// The trees that the text `cs` writes as `value(child child ...)`.
pub open spec fn read_trees(cs: Seq<char>) -> Result<Seq<Term<Seq<char>>>, TreeTextError> {
    match text_run(TextState { trees: Seq::empty(), opens: Seq::empty(), word: Seq::empty() }, cs, 0) {
        Ok(st) => Ok(st.trees),
        Err(e) => Err(e),
    }
}

pub open spec fn tree_views(v: Seq<Tree<String>>) -> Seq<Term<Seq<char>>> {
    v.map_values(|t: Tree<String>| t.view_term())
}

pub open spec fn trees_wf(v: Seq<Tree<String>>) -> bool {
    forall|i: int| 0 <= i < v.len() ==> (#[trigger] v[i]).wf()
}

/// The invariant of the reading state: bracket positions increase, and each
/// has a tree before it.
pub open spec fn opens_ok(opens: Seq<int>, n: int) -> bool {
    &&& forall|j: int| 0 <= j < opens.len() ==> 1 <= #[trigger] opens[j] <= n
    &&& forall|i: int, j: int| 0 <= i < j < opens.len() ==> opens[i] < opens[j]
}

fn flush_word(stack: &mut Vec<Tree<String>>, word: &mut Vec<char>)
    requires
        trees_wf(old(stack)@),
    ensures
        trees_wf(final(stack)@),
        final(word)@ == Seq::<char>::empty(),
        ({
            let f = flush(TextState { trees: tree_views(old(stack)@), opens: Seq::empty(), word: old(word)@ });
            tree_views(final(stack)@) == f.trees
        }),
        final(stack)@.len() >= old(stack)@.len(),
{
    if word.len() > 0 {
        let ghost before = stack@;
        stack.push(Tree::new(crate::text::string_of(word.as_slice())));
        assert(tree_views(stack@) =~= tree_views(before).push(leaf(old(word)@)));
        *word = Vec::new();
    }
    assert(word@ =~= Seq::<char>::empty());
}

/// Reads trees written as `value(child child ...)`, separated by white space.
pub fn parse_trees(s: &str) -> (r: Result<Vec<Tree<String>>, TreeTextError>)
    ensures
        match read_trees(s@) {
            Ok(ts) => r is Ok && trees_wf(r->Ok_0@) && tree_views(r->Ok_0@) == ts,
            Err(e) => r == Err::<Vec<Tree<String>>, TreeTextError>(e),
        },
{
    let cs = crate::text::chars_of(s);
    let mut stack: Vec<Tree<String>> = Vec::new();
    let mut opens: Vec<usize> = Vec::new();
    let mut word: Vec<char> = Vec::new();
    let ghost goal = read_trees(s@);
    let mut i: usize = 0;
    proof {
        assert(tree_views(stack@) =~= Seq::<Term<Seq<char>>>::empty());
        assert(crate::ast::ints(opens@) =~= Seq::<int>::empty());
    }
    while i < cs.len()
        invariant
            i <= cs@.len(),
            cs@ == s@,
            goal == read_trees(s@),
            trees_wf(stack@),
            opens_ok(crate::ast::ints(opens@), stack@.len() as int),
            goal == match text_run(
                TextState { trees: tree_views(stack@), opens: crate::ast::ints(opens@), word: word@ },
                cs@,
                i as int,
            ) {
                Ok(st) => Ok(st.trees),
                Err(e) => Err::<Seq<Term<Seq<char>>>, TreeTextError>(e),
            },
        decreases cs@.len() - i,
    {
        let c = cs[i];
        let ghost st = TextState { trees: tree_views(stack@), opens: crate::ast::ints(opens@), word: word@ };
        if crate::text::is_white(c) {
            flush_word(&mut stack, &mut word);
            assert(flush(st).trees == tree_views(stack@));
            assert(flush(st).word == word@);
            assert(flush(st).opens == crate::ast::ints(opens@));
            assert(text_step(st, c)->Ok_0 =~~= TextState { trees: tree_views(stack@), opens: crate::ast::ints(opens@), word: word@ });
        } else if c == '(' {
            flush_word(&mut stack, &mut word);
            let n = stack.len();
            if n == 0 || (opens.len() > 0 && opens[opens.len() - 1] == n) {
                proof {
                    if opens.len() > 0 {
                        assert(crate::ast::ints(opens@).last() == opens@[opens@.len() - 1] as int);
                    }
                    assert(text_step(st, c) is Err);
                    assert(cs@[i as int] == c);
                    assert(text_run(st, cs@, i as int) is Err);
                }
                return Err(TreeTextError::MissingParent);
            }
            let ghost o0 = opens@;
            opens.push(n);
            assert(crate::ast::ints(opens@) =~= crate::ast::ints(o0).push(n as int));
            assert(crate::ast::ints(opens@) =~= st.opens.push(n as int));
            assert(flush(st).trees == tree_views(stack@));
            assert(flush(st).word == word@);
            assert(text_step(st, c)->Ok_0 =~~= TextState { trees: tree_views(stack@), opens: crate::ast::ints(opens@), word: word@ });
        } else if c == ')' {
            flush_word(&mut stack, &mut word);
            let k = match opens.pop() {
                Some(k) => k,
                None => {
                    return Err(TreeTextError::MissingParenL);
                },
            };
            let ghost f = tree_views(stack@);
            assert(crate::ast::ints(opens@) =~= st.opens.drop_last());
            assert(st.opens.last() == k as int);
            assert(1 <= k <= stack@.len()) by {
                assert(st.opens[st.opens.len() - 1] == k as int);
            }
            let children = stack.split_off(k);
            let mut parent = match stack.pop() {
                Some(t) => t,
                None => Tree::new(String::new()),
            };
            let ghost p = f[k - 1];
            assert(parent.view_term() == p);
            assert(tree_views(stack@) =~= f.subrange(0, k - 1));
            assert(tree_views(children@) =~= f.subrange(k as int, f.len() as int));
            let mut j: usize = 0;
            assert(p.children + tree_views(children@).subrange(0, 0) =~= p.children);
            while j < children.len()
                invariant
                    j <= children@.len(),
                    1 <= k <= f.len(),
                    stack@.len() == k - 1,
                    trees_wf(stack@),
                    parent.wf(),
                    forall|q: int| 0 <= q < children@.len() ==> (#[trigger] children@[q]).wf(),
                    tree_views(children@) == f.subrange(k as int, f.len() as int),
                    tree_views(stack@) == f.subrange(0, k - 1),
                    parent.view_term() == branch(p.value, p.children + tree_views(children@).subrange(0, j as int)),
                decreases children@.len() - j,
            {
                let root = parent.root_id();
                parent.push_sub(root, children[j].subtree_root());
                assert(p.children + tree_views(children@).subrange(0, j + 1) =~= (p.children + tree_views(children@).subrange(0, j as int)).push(tree_views(children@)[j as int]));
                j += 1;
            }
            let ghost before = stack@;
            stack.push(parent);
            assert(tree_views(stack@) =~= tree_views(before).push(parent.view_term()));
            assert forall|q: int| 0 <= q < stack@.len() implies (#[trigger] stack@[q]).wf() by {
                if q < k - 1 {
                    assert(stack@[q] == before[q]);
                }
            }
            assert(tree_views(children@).subrange(0, children@.len() as int) =~= tree_views(children@));
            assert(opens_ok(crate::ast::ints(opens@), stack@.len() as int));
            assert(text_step(st, c)->Ok_0 =~~= TextState { trees: tree_views(stack@), opens: crate::ast::ints(opens@), word: word@ });
        } else {
            word.push(c);
            assert(text_step(st, c)->Ok_0 =~~= TextState { trees: tree_views(stack@), opens: crate::ast::ints(opens@), word: word@ });
        }
        proof {
            assert(cs@[i as int] == c);
            let ns = TextState { trees: tree_views(stack@), opens: crate::ast::ints(opens@), word: word@ };
            assert(text_step(st, c) is Ok);
            assert(text_step(st, c)->Ok_0 =~~= ns);
            assert(text_run(st, cs@, i as int) == text_run(ns, cs@, i + 1));
        }
        i += 1;
    }
    flush_word(&mut stack, &mut word);
    Ok(stack)
}

/// Reads trees written as `value(child child ...)`, separated by white space.
pub fn parse_tree(s: &str) -> (r: Result<Vec<Tree<String>>, TreeTextError>)
    ensures
        match read_trees(s@) {
            Ok(ts) => r is Ok && trees_wf(r->Ok_0@) && tree_views(r->Ok_0@) == ts,
            Err(e) => r == Err::<Vec<Tree<String>>, TreeTextError>(e),
        },
{
    parse_trees(s)
}

impl std::str::FromStr for Tree<String> {
    type Err = TreeTextError;

    /// Reads exactly one tree written as `value(child child ...)`.
    fn from_str(s: &str) -> Result<Self, Self::Err> {
        let mut trees = parse_trees(s)?;
        if trees.len() == 0 {
            Err(TreeTextError::Empty)
        } else if trees.len() == 1 {
            match trees.pop() {
                Some(t) => Ok(t),
                None => Err(TreeTextError::Empty),
            }
        } else {
            Err(TreeTextError::Multiple)
        }
    }
}

} // verus!
