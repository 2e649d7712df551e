//! Trees that own their nodes directly, each node holding its children, with
//! cursors that address a node by its path of child positions.
use vstd::prelude::*;
use crate::tree::{Term, branch, leaf};

verus! {

/// The subterm of `t` at path `p`, each step a child position.
pub open spec fn at_path<V>(t: Term<V>, p: Seq<usize>) -> Option<Term<V>>
    decreases p.len(),
{
    if p.len() == 0 {
        Some(t)
    } else if p[0] < t.children.len() {
        at_path(t.children[p[0] as int], p.drop_first())
    } else {
        None
    }
}

/// `t` with `c` appended to the children of the subterm at path `p`.
pub open spec fn push_at<V>(t: Term<V>, p: Seq<usize>, c: Term<V>) -> Term<V>
    decreases p.len(),
{
    if p.len() == 0 {
        branch(t.value, t.children.push(c))
    } else if p[0] < t.children.len() {
        branch(t.value, t.children.update(p[0] as int, push_at(t.children[p[0] as int], p.drop_first(), c)))
    } else {
        t
    }
}

/// The values of `t` in pre-order, each with its depth below `d`.
pub open spec fn pre_order<V>(t: Term<V>, d: nat) -> Seq<(V, nat)>
    decreases t, 1int,
{
    seq![(t.value, d)] + pre_order_from(t.children, d + 1, 0)
}

/// The pre-order values of `ts[i..]`, at depth `d`.
pub open spec fn pre_order_from<V>(ts: Seq<Term<V>>, d: nat, i: int) -> Seq<(V, nat)>
    decreases ts, 0int, ts.len() - i,
{
    if 0 <= i < ts.len() {
        pre_order(ts[i], d) + pre_order_from(ts, d, i + 1)
    } else {
        Seq::empty()
    }
}

/// The number of levels below the root of `t`.
pub open spec fn height<V>(t: Term<V>) -> nat
    decreases t, 1int,
{
    height_from(t.children, 0)
}

/// One more than the greatest height among `ts[i..]`; 0 if there are none.
pub open spec fn height_from<V>(ts: Seq<Term<V>>, i: int) -> nat
    decreases ts, 0int, ts.len() - i,
{
    if 0 <= i < ts.len() {
        let h = height(ts[i]) + 1;
        let r = height_from(ts, i + 1);
        if h > r { h } else { r }
    } else {
        0
    }
}

pub proof fn lemma_height_from<V>(ts: Seq<Term<V>>, i: int, j: int)
    requires
        0 <= i <= j < ts.len(),
    ensures
        height(ts[j]) + 1 <= height_from(ts, i),
    decreases j - i,
{
    if i < j {
        lemma_height_from(ts, i + 1, j);
    }
}

/// A node and, below it, its children in order.
#[derive(Debug, PartialEq)]
pub struct Node<T> {
    value: T,
    children: Vec<Node<T>>,
}

impl<T: View> Node<T> {
    /// The term this node heads.
    pub closed spec fn term(&self) -> Term<T::V>
        decreases self,
    {
        Term {
            value: self.value@,
            children: Seq::new(
                self.children@.len(),
                |i: int|
                    if 0 <= i < self.children@.len() {
                        self.children@[i].term()
                    } else {
                        leaf(self.value@)
                    },
            ),
        }
    }

    fn leaf_node(value: T) -> (r: Self)
        ensures
            r.term() == leaf(value@),
    {
        let r = Node { value, children: Vec::new() };
        assert(r.term().children =~= Seq::<Term<T::V>>::empty());
        r
    }

    fn push_child(&mut self, c: Node<T>)
        ensures
            final(self).term() == branch(old(self).term().value, old(self).term().children.push(c.term())),
    {
        self.children.push(c);
        assert(final(self).term().children =~= old(self).term().children.push(c.term()));
    }

    /// Appends `c` to the children of the node at `path[i..]`.
    fn push_at_path(&mut self, path: &[usize], i: usize, c: Node<T>)
        requires
            i <= path@.len(),
            at_path(old(self).term(), path@.subrange(i as int, path@.len() as int)) is Some,
        ensures
            final(self).term() == push_at(old(self).term(), path@.subrange(i as int, path@.len() as int), c.term()),
        decreases path@.len() - i,
    {
        let ghost p = path@.subrange(i as int, path@.len() as int);
        if i == path.len() {
            self.push_child(c);
            return;
        }
        let k = path[i];
        assert(p[0] == k);
        assert(p.drop_first() =~= path@.subrange(i + 1, path@.len() as int));
        let ghost before = self.children@;
        self.children[k].push_at_path(path, i + 1, c);
        assert(final(self).term().children =~= old(self).term().children.update(
            k as int,
            push_at(old(self).term().children[k as int], p.drop_first(), c.term()),
        ));
    }

    /// Appends this node's values in pre-order, with their depths from `d`, to `out`.
    fn collect<'a>(&'a self, d: usize, out: &mut Vec<(&'a T, usize)>)
        requires
            d + height(self.term()) <= usize::MAX,
        ensures
            depth_views(final(out)@) == depth_views(old(out)@) + pre_order(self.term(), d as nat),
        decreases self,
    {
        out.push((&self.value, d));
        let ghost base = depth_views(old(out)@);
        assert(depth_views(out@) =~= base + seq![(self.value@, d as nat)]);
        let mut i: usize = 0;
        assert(pre_order(self.term(), d as nat) =~= seq![(self.value@, d as nat)] + pre_order_from(self.term().children, (d + 1) as nat, 0));
        while i < self.children.len()
            invariant
                i <= self.children@.len(),
                d + height(self.term()) <= usize::MAX,
                base + pre_order(self.term(), d as nat) == depth_views(out@) + pre_order_from(self.term().children, (d + 1) as nat, i as int),
            decreases self.children@.len() - i,
        {
            let ghost before = depth_views(out@);
            assert(self.term().children[i as int] == self.children@[i as int].term());
            proof {
                lemma_height_from(self.term().children, 0, i as int);
            }
            self.children[i].collect(d + 1, out);
            assert(before + pre_order_from(self.term().children, (d + 1) as nat, i as int) =~= depth_views(out@) + pre_order_from(self.term().children, (d + 1) as nat, i + 1));
            i += 1;
        }
        assert(depth_views(out@) + pre_order_from(self.term().children, (d + 1) as nat, i as int) =~= depth_views(out@));
    }
}

pub open spec fn depth_views<'a, T: View>(v: Seq<(&'a T, usize)>) -> Seq<(T::V, nat)> {
    v.map_values(|e: (&'a T, usize)| (e.0@, e.1 as nat))
}

impl<T: View + Copy> Node<T> {
    /// A copy of this node and everything below it.
    fn copy(&self) -> (r: Self)
        ensures
            r.term() == self.term(),
        decreases self,
    {
        let mut children: Vec<Node<T>> = Vec::new();
        let mut i: usize = 0;
        while i < self.children.len()
            invariant
                i <= self.children@.len(),
                children@.len() == i,
                forall|j: int| 0 <= j < i ==> (#[trigger] children@[j]).term() == self.children@[j].term(),
            decreases self.children@.len() - i,
        {
            children.push(self.children[i].copy());
            i += 1;
        }
        let r = Node { value: self.value, children };
        assert(r.term().children =~= self.term().children);
        r
    }
}

impl Node<String> {
    /// The node of the arena term below `sub`.
    fn from_sub(sub: crate::tree::Subtree<'_, String>) -> (r: Self)
        ensures
            r.term() == sub.term(),
        decreases sub.tree().slots() - sub.at(),
    {
        let mut children: Vec<Node<String>> = Vec::new();
        let n = sub.children_len();
        let mut i: usize = 0;
        while i < n
            invariant
                i <= n,
                n == sub.term().children.len(),
                children@.len() == i,
                forall|j: int| 0 <= j < i ==> (#[trigger] children@[j]).term() == sub.term().children[j],
            decreases n - i,
        {
            children.push(Node::from_sub(sub.child(i)));
            i += 1;
        }
        let r = Node { value: sub.get_root().clone(), children };
        assert(r.term().children =~= sub.term().children);
        r
    }
}

/// A tree that owns its nodes directly.
#[derive(Debug, PartialEq)]
pub struct Tree<T> {
    root: Node<T>,
}

impl<T: View> Tree<T> {
    /// The term of the whole tree.
    pub closed spec fn term(&self) -> Term<T::V> {
        self.root.term()
    }

    pub fn new(value: T) -> (r: Self)
        ensures
            r.term() == leaf(value@),
    {
        Tree { root: Node::leaf_node(value) }
    }

    pub fn get_value_root(&self) -> (r: &T)
        ensures
            r@ == self.term().value,
    {
        &self.root.value
    }

    /// Appends a leaf holding `value` to the root's children.
    pub fn append_value(&mut self, value: T)
        ensures
            final(self).term() == branch(old(self).term().value, old(self).term().children.push(leaf(value@))),
    {
        self.root.push_child(Node::leaf_node(value));
    }

    /// Appends `t` to the root's children.
    pub fn append_tree(&mut self, t: Self)
        ensures
            final(self).term() == branch(old(self).term().value, old(self).term().children.push(t.term())),
    {
        self.root.push_child(t.root);
    }

    /// The values in pre-order.
    pub fn traverse(&self) -> (r: Traversal<'_, T>)
        requires
            height(self.term()) < usize::MAX,
        ensures
            r.rest() == pre_order(self.term(), 0).map_values(|e: (T::V, nat)| e.0),
    {
        let mut out: Vec<(&T, usize)> = Vec::new();
        self.root.collect(0, &mut out);
        let r = Traversal { items: out, next_idx: 0 };
        assert(r.rest() =~= pre_order(self.term(), 0).map_values(|e: (T::V, nat)| e.0)) by {
            assert(depth_views(out@) =~= Seq::<(T::V, nat)>::empty() + pre_order(self.term(), 0));
        }
        r
    }

    /// A cursor at the node that `path` leads to from the root, if any.
    pub fn cursor_at(&self, path: &[usize]) -> (r: Option<Cursor<'_, T>>)
        ensures
            at_path(self.term(), path@) is None ==> r is None,
            at_path(self.term(), path@) matches Some(t) ==> r is Some && r->Some_0.term() == t,
    {
        let mut current = &self.root;
        let mut i: usize = 0;
        assert(path@.subrange(0, path@.len() as int) =~= path@);
        while i < path.len()
            invariant
                i <= path@.len(),
                at_path(self.term(), path@) == at_path(current.term(), path@.subrange(i as int, path@.len() as int)),
            decreases path@.len() - i,
        {
            let ghost p = path@.subrange(i as int, path@.len() as int);
            assert(p[0] == path@[i as int]);
            assert(p.drop_first() =~= path@.subrange(i + 1, path@.len() as int));
            let k = path[i];
            if k >= current.children.len() {
                return None;
            }
            assert(current.term().children[k as int] == current.children@[k as int].term());
            current = &current.children[k];
            i += 1;
        }
        assert(path@.subrange(i as int, path@.len() as int) =~= Seq::<usize>::empty());
        Some(Cursor { target: current })
    }

    /// A cursor at the root.
    pub fn cursor(&self) -> (r: Cursor<'_, T>)
        ensures
            r.term() == self.term(),
    {
        Cursor { target: &self.root }
    }

    /// A cursor for appending below the node that `path` leads to, if any.
    pub fn cursor_mut_at(&mut self, path: &[usize]) -> (r: Option<CursorMut<'_, T>>)
        ensures
            at_path(old(self).term(), path@) is None ==> r is None && *final(self) == *old(self),
            at_path(old(self).term(), path@) is Some ==> r is Some && r->Some_0.valid()
                && r->Some_0.term() == old(self).term() && r->Some_0.path() == path@,
    {
        if self.cursor_at(path).is_none() {
            return None;
        }
        let mut p: Vec<usize> = Vec::new();
        let mut i: usize = 0;
        while i < path.len()
            invariant
                i <= path@.len(),
                p@ == path@.subrange(0, i as int),
            decreases path@.len() - i,
        {
            p.push(path[i]);
            i += 1;
        }
        assert(p@ =~= path@);
        Some(CursorMut { tree: self, path: p })
    }

    /// A cursor for appending below the root.
    pub fn cursor_mut(&mut self) -> (r: CursorMut<'_, T>)
        ensures
            r.valid(),
            r.term() == old(self).term(),
            r.path() == Seq::<usize>::empty(),
    {
        let r = CursorMut { tree: self, path: Vec::new() };
        assert(r.path() =~= Seq::<usize>::empty());
        r
    }
}

impl<T: View + Copy> Tree<T> {
    /// A tree holding a copy of the root's child number `index`, if any.
    pub fn clone_child(&self, index: usize) -> (r: Option<Self>)
        ensures
            index >= self.term().children.len() ==> r is None,
            index < self.term().children.len() ==> r is Some && r->Some_0.term() == self.term().children[index as int],
    {
        if index < self.root.children.len() {
            Some(Tree { root: self.root.children[index].copy() })
        } else {
            None
        }
    }

    /// A copy of the whole tree.
    pub fn clone(&self) -> (r: Self)
        ensures
            r.term() == self.term(),
    {
        Tree { root: self.root.copy() }
    }
}

impl<T: View + std::fmt::Display> Tree<T> {
    /// The tree written as `value(child child ...)`.
    pub fn to_string(&self) -> String {
        let mut out = String::new();
        write_node(&self.root, &mut out);
        out
    }
}

fn write_node<T: View + std::fmt::Display>(node: &Node<T>, out: &mut String)
    decreases node,
{
    let v = node.value.to_string();
    crate::text::push_all(out, v.as_str());
    if node.children.len() > 0 {
        crate::text::push_char(out, '(');
        let mut i: usize = 0;
        while i < node.children.len()
            decreases node.children@.len() - i,
        {
            if i > 0 {
                crate::text::push_char(out, ' ');
            }
            write_node(&node.children[i], out);
            i += 1;
        }
        crate::text::push_char(out, ')');
    }
}

impl std::str::FromStr for Tree<String> {
    type Err = crate::tree::TreeTextError;

    /// Reads the first tree written as `value(child child ...)`.
    fn from_str(s: &str) -> Result<Self, Self::Err> {
        let trees = crate::tree::parse_trees(s)?;
        if trees.len() == 0 {
            Err(crate::tree::TreeTextError::Empty)
        } else {
            Ok(Tree { root: Node::from_sub(trees[0].subtree_root()) })
        }
    }
}

/// The values of a tree handed out one at a time, in pre-order.
pub struct Traversal<'a, T> {
    items: Vec<(&'a T, usize)>,
    next_idx: usize,
}

impl<'a, T: View> Traversal<'a, T> {
    /// The values not handed out yet.
    pub closed spec fn rest(&self) -> Seq<T::V> {
        if self.next_idx <= self.items@.len() {
            depth_views(self.items@.subrange(self.next_idx as int, self.items@.len() as int)).map_values(
                |e: (T::V, nat)| e.0,
            )
        } else {
            Seq::empty()
        }
    }

    pub fn next(&mut self) -> (r: Option<&'a T>)
        ensures
            old(self).rest().len() == 0 ==> r is None,
            old(self).rest().len() > 0 ==> r is Some && r->Some_0@ == old(self).rest()[0]
                && final(self).rest() == old(self).rest().drop_first(),
    {
        if self.next_idx < self.items.len() {
            let item = self.items[self.next_idx].0;
            self.next_idx += 1;
            assert(final(self).rest() =~= old(self).rest().drop_first());
            Some(item)
        } else {
            None
        }
    }
}

/// The values of a tree with their depths, handed out one at a time, in pre-order.
pub struct TraversalDepth<'a, T> {
    items: Vec<(&'a T, usize)>,
    next_idx: usize,
}

impl<'a, T: View> TraversalDepth<'a, T> {
    /// The values and depths not handed out yet.
    pub closed spec fn rest(&self) -> Seq<(T::V, nat)> {
        if self.next_idx <= self.items@.len() {
            depth_views(self.items@.subrange(self.next_idx as int, self.items@.len() as int))
        } else {
            Seq::empty()
        }
    }

    pub fn new(t: &'a Tree<T>) -> (r: Self)
        requires
            height(t.term()) < usize::MAX,
        ensures
            r.rest() == pre_order(t.term(), 0),
    {
        let mut out: Vec<(&T, usize)> = Vec::new();
        t.root.collect(0, &mut out);
        let r = TraversalDepth { items: out, next_idx: 0 };
        assert(r.rest() =~= pre_order(t.term(), 0)) by {
            assert(depth_views(out@) =~= Seq::<(T::V, nat)>::empty() + pre_order(t.term(), 0));
        }
        r
    }

    pub fn next(&mut self) -> (r: Option<(&'a T, usize)>)
        ensures
            old(self).rest().len() == 0 ==> r is None,
            old(self).rest().len() > 0 ==> r is Some && (r->Some_0.0@, r->Some_0.1 as nat) == old(self).rest()[0]
                && final(self).rest() == old(self).rest().drop_first(),
    {
        if self.next_idx < self.items.len() {
            let item = self.items[self.next_idx];
            self.next_idx += 1;
            assert(final(self).rest() =~= old(self).rest().drop_first());
            Some(item)
        } else {
            None
        }
    }
}

/// A read-only position in a tree.
pub struct Cursor<'a, T> {
    target: &'a Node<T>,
}

impl<'a, T: View> Cursor<'a, T> {
    /// The term below the cursor.
    pub closed spec fn term(&self) -> Term<T::V> {
        self.target.term()
    }

    pub fn get(&self) -> (r: &'a T)
        ensures
            r@ == self.term().value,
    {
        &self.target.value
    }

    /// Moves to child number `idx`, if there is one.
    pub fn move_to_child(&mut self, idx: usize) -> (r: Result<(), ()>)
        ensures
            idx < old(self).term().children.len() ==> r is Ok && final(self).term() == old(self).term().children[idx as int],
            idx >= old(self).term().children.len() ==> r is Err && final(self).term() == old(self).term(),
    {
        if idx < self.target.children.len() {
            assert(self.term().children[idx as int] == self.target.children@[idx as int].term());
            self.target = &self.target.children[idx];
            Ok(())
        } else {
            Err(())
        }
    }

    /// A cursor at child number `idx`, if there is one.
    pub fn clone_child(&self, idx: usize) -> (r: Result<Self, ()>)
        ensures
            idx < self.term().children.len() ==> r is Ok && r->Ok_0.term() == self.term().children[idx as int],
            idx >= self.term().children.len() ==> r is Err,
    {
        if idx < self.target.children.len() {
            assert(self.term().children[idx as int] == self.target.children@[idx as int].term());
            Ok(Cursor { target: &self.target.children[idx] })
        } else {
            Err(())
        }
    }

    /// Cursors at the children, in order.
    pub fn children(&self) -> (r: IterChildren<'a, T>)
        ensures
            r.rest() == self.term().children,
    {
        let r = IterChildren { children: &self.target.children, next_idx: 0 };
        assert(r.rest() =~= self.term().children);
        r
    }
}

/// Cursors at a node's children, handed out one at a time.
pub struct IterChildren<'a, T> {
    children: &'a Vec<Node<T>>,
    next_idx: usize,
}

impl<'a, T: View> IterChildren<'a, T> {
    /// The terms of the children not handed out yet.
    pub closed spec fn rest(&self) -> Seq<Term<T::V>> {
        if self.next_idx <= self.children@.len() {
            self.children@.subrange(self.next_idx as int, self.children@.len() as int).map_values(|n: Node<T>| n.term())
        } else {
            Seq::empty()
        }
    }

    pub fn next(&mut self) -> (r: Option<Cursor<'a, T>>)
        ensures
            old(self).rest().len() == 0 ==> r is None,
            old(self).rest().len() > 0 ==> r is Some && r->Some_0.term() == old(self).rest()[0]
                && final(self).rest() == old(self).rest().drop_first(),
    {
        if self.next_idx < self.children.len() {
            let c = Cursor { target: &self.children[self.next_idx] };
            self.next_idx += 1;
            assert(final(self).rest() =~= old(self).rest().drop_first());
            Some(c)
        } else {
            None
        }
    }
}

/// A position in a tree at which new children can be appended.
pub struct CursorMut<'a, T> {
    tree: &'a mut Tree<T>,
    path: Vec<usize>,
}

impl<'a, T: View> CursorMut<'a, T> {
    /// The term of the whole tree.
    pub closed spec fn term(&self) -> Term<T::V> {
        self.tree.term()
    }

    /// The path from the root to the cursor's node.
    pub closed spec fn path(&self) -> Seq<usize> {
        self.path@
    }

    pub closed spec fn valid(&self) -> bool {
        at_path(self.tree.term(), self.path@) is Some
    }

    /// The value at the cursor.
    pub fn get(&self) -> (r: &T)
        requires
            self.valid(),
        ensures
            r@ == at_path(self.term(), self.path())->Some_0.value,
    {
        let mut current = &self.tree.root;
        let mut i: usize = 0;
        assert(self.path@.subrange(0, self.path@.len() as int) =~= self.path@);
        while i < self.path.len()
            invariant
                i <= self.path@.len(),
                at_path(self.tree.term(), self.path@) == at_path(current.term(), self.path@.subrange(i as int, self.path@.len() as int)),
                at_path(self.tree.term(), self.path@) is Some,
            decreases self.path@.len() - i,
        {
            let ghost p = self.path@.subrange(i as int, self.path@.len() as int);
            assert(p[0] == self.path@[i as int]);
            assert(p.drop_first() =~= self.path@.subrange(i + 1, self.path@.len() as int));
            let k = self.path[i];
            assert(current.term().children[k as int] == current.children@[k as int].term());
            current = &current.children[k];
            i += 1;
        }
        assert(self.path@.subrange(i as int, self.path@.len() as int) =~= Seq::<usize>::empty());
        &current.value
    }

    /// Appends a leaf holding `value` to the children of the cursor's node.
    pub fn append_value(&mut self, value: T)
        requires
            old(self).valid(),
        ensures
            final(self).valid(),
            final(self).path() == old(self).path(),
            final(self).term() == push_at(old(self).term(), old(self).path(), leaf(value@)),
    {
        self.append_node(Node::leaf_node(value));
    }

    /// Appends `t` to the children of the cursor's node.
    pub fn append_tree(&mut self, t: Tree<T>)
        requires
            old(self).valid(),
        ensures
            final(self).valid(),
            final(self).path() == old(self).path(),
            final(self).term() == push_at(old(self).term(), old(self).path(), t.term()),
    {
        self.append_node(t.root);
    }

    fn append_node(&mut self, n: Node<T>)
        requires
            old(self).valid(),
        ensures
            final(self).valid(),
            final(self).path() == old(self).path(),
            final(self).term() == push_at(old(self).term(), old(self).path(), n.term()),
    {
        assert(self.path@.subrange(0, self.path@.len() as int) =~= self.path@);
        self.tree.root.push_at_path(self.path.as_slice(), 0, n);
        proof {
            lemma_push_keeps_path(old(self).term(), self.path@, n.term());
        }
    }
}

/// Appending below the node at `p` keeps `p` leading to a node.
pub proof fn lemma_push_keeps_path<V>(t: Term<V>, p: Seq<usize>, c: Term<V>)
    requires
        at_path(t, p) is Some,
    ensures
        at_path(push_at(t, p, c), p) is Some,
    decreases p.len(),
{
    if p.len() > 0 {
        lemma_push_keeps_path(t.children[p[0] as int], p.drop_first(), c);
    }
}

} // verus!
