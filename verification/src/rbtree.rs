//! Binary trees whose nodes know their parents, over nodes that lie in a pool.
//!
//! A node is named by its index in the pool. The order of the nodes is the order in which a walk from
//! left to right meets them; it does not depend on the shape of the tree, and no operation here
//! balances it.

use vstd::prelude::*;

verus! {

/// The index of no node.
pub const NIL: usize = usize::MAX;

/// The links of a node. A node that is in no tree is its own parent.
#[allow(non_camel_case_types)]
#[derive(Clone, Copy)]
pub struct rb_node {
    /// The node above.
    pub rb_parent: usize,
    /// The node that the later ones are below.
    pub rb_right: usize,
    /// The node that the earlier ones are below.
    pub rb_left: usize,
}

/// The top node of a tree, and the shape of the tree.
#[allow(non_camel_case_types)]
pub struct rb_root {
    /// The top node.
    pub rb_node: usize,
    /// The nodes of the tree.
    pub shape: Ghost<Tree>,
}

/// The shape of a tree.
pub ghost enum Tree {
    Leaf,
    Node { left: Box<Tree>, node: usize, right: Box<Tree> },
}

/// A pool of nodes, each of which has its links and whatever else belongs to it.
pub trait RbNodes {
    /// What belongs to the nodes besides their links.
    type Rest;

    /// The links of the nodes.
    spec fn links(&self) -> Seq<rb_node>;

    /// What else belongs to them.
    spec fn rest(&self) -> Self::Rest;

    /// Reads the links of a node.
    fn get(&self, i: usize) -> (n: rb_node)
        requires
            i < self.links().len(),
        ensures
            n == self.links()[i as int],
            self.links().len() <= usize::MAX,
    ;

    /// Writes the links of a node.
    fn set(&mut self, i: usize, n: rb_node)
        requires
            i < old(self).links().len(),
        ensures
            final(self).links() == old(self).links().update(i as int, n),
            final(self).rest() == old(self).rest(),
    ;
}

/// The nodes of a tree in their order.
pub open spec fn inorder(t: Tree) -> Seq<usize>
    decreases t,
{
    match t {
        Tree::Leaf => Seq::empty(),
        Tree::Node { left, node, right } => inorder(*left).push(node) + inorder(*right),
    }
}

/// Whether the links of `n` make the tree `t` of the nodes below `idx`, the parent of which is
/// `parent`.
pub open spec fn represents(n: Seq<rb_node>, idx: usize, parent: usize, t: Tree) -> bool
    decreases t,
{
    match t {
        Tree::Leaf => idx == NIL,
        Tree::Node { left, node, right } => {
            &&& idx == node
            &&& node < n.len()
            &&& node != NIL
            &&& n[node as int].rb_parent == parent
            &&& represents(n, n[node as int].rb_left, node, *left)
            &&& represents(n, n[node as int].rb_right, node, *right)
        },
    }
}

/// The tree below `path`, each step of which goes to the left or not.
pub open spec fn below(t: Tree, path: Seq<bool>) -> Tree
    decreases path.len(),
{
    if path.len() == 0 {
        t
    } else {
        match t {
            Tree::Leaf => Tree::Leaf,
            Tree::Node { left, node, right } => if path[0] {
                below(*left, path.skip(1))
            } else {
                below(*right, path.skip(1))
            },
        }
    }
}

/// Whether `path` stays in the tree: it ends at a node, or just below one.
pub open spec fn valid(t: Tree, path: Seq<bool>) -> bool
    decreases path.len(),
{
    path.len() == 0 || match t {
        Tree::Leaf => false,
        Tree::Node { left, node, right } => if path[0] {
            valid(*left, path.skip(1))
        } else {
            valid(*right, path.skip(1))
        },
    }
}

/// The tree with `s` in place of what is below `path`.
pub open spec fn put(t: Tree, path: Seq<bool>, s: Tree) -> Tree
    decreases path.len(),
{
    if path.len() == 0 {
        s
    } else {
        match t {
            Tree::Leaf => Tree::Leaf,
            Tree::Node { left, node, right } => if path[0] {
                Tree::Node { left: Box::new(put(*left, path.skip(1), s)), node, right }
            } else {
                Tree::Node { left, node, right: Box::new(put(*right, path.skip(1), s)) }
            },
        }
    }
}

/// The node just above the end of `path`, where `parent` is above the tree.
pub open spec fn owner(parent: usize, t: Tree, path: Seq<bool>) -> usize
    decreases path.len(),
{
    if path.len() == 0 {
        parent
    } else {
        match t {
            Tree::Leaf => parent,
            Tree::Node { left, node, right } => if path[0] {
                owner(node, *left, path.skip(1))
            } else {
                owner(node, *right, path.skip(1))
            },
        }
    }
}

/// The nodes before those below `path`.
pub open spec fn before_path(t: Tree, path: Seq<bool>) -> Seq<usize>
    decreases path.len(),
{
    if path.len() == 0 {
        Seq::empty()
    } else {
        match t {
            Tree::Leaf => Seq::empty(),
            Tree::Node { left, node, right } => if path[0] {
                before_path(*left, path.skip(1))
            } else {
                inorder(*left).push(node) + before_path(*right, path.skip(1))
            },
        }
    }
}

/// The nodes behind those below `path`.
pub open spec fn after_path(t: Tree, path: Seq<bool>) -> Seq<usize>
    decreases path.len(),
{
    if path.len() == 0 {
        Seq::empty()
    } else {
        match t {
            Tree::Leaf => Seq::empty(),
            Tree::Node { left, node, right } => if path[0] {
                after_path(*left, path.skip(1)).push(node) + inorder(*right)
            } else {
                after_path(*right, path.skip(1))
            },
        }
    }
}

/// A path cuts the order of a tree into what is before, below and behind it.
pub proof fn lemma_cut(t: Tree, path: Seq<bool>, s: Tree)
    requires
        valid(t, path),
    ensures
        inorder(t) == before_path(t, path) + inorder(below(t, path)) + after_path(t, path),
        inorder(put(t, path, s)) == before_path(t, path) + inorder(s) + after_path(t, path),
    decreases path.len(),
{
    if path.len() > 0 {
        match t {
            Tree::Leaf => {},
            Tree::Node { left, node, right } => {
                if path[0] {
                    lemma_cut(*left, path.skip(1), s);
                    let a = before_path(*left, path.skip(1));
                    let b = inorder(below(*left, path.skip(1)));
                    let c = after_path(*left, path.skip(1));
                    let d = inorder(s);
                    assert((a + b + c).push(node) + inorder(*right) =~= a + b + (c.push(node)
                        + inorder(*right)));
                    assert((a + d + c).push(node) + inorder(*right) =~= a + d + (c.push(node)
                        + inorder(*right)));
                } else {
                    lemma_cut(*right, path.skip(1), s);
                    let l = inorder(*left).push(node);
                    let a = before_path(*right, path.skip(1));
                    let b = inorder(below(*right, path.skip(1)));
                    let c = after_path(*right, path.skip(1));
                    let d = inorder(s);
                    assert(l + (a + b + c) =~= (l + a) + b + c);
                    assert(l + (a + d + c) =~= (l + a) + d + c);
                }
            },
        }
    } else {
        assert(before_path(t, path) + inorder(t) + after_path(t, path) =~= inorder(t));
        assert(before_path(t, path) + inorder(s) + after_path(t, path) =~= inorder(s));
    }
}

/// A step further along a path.
pub proof fn lemma_step(t: Tree, path: Seq<bool>, go_left: bool, parent: usize)
    requires
        valid(t, path),
        below(t, path) is Node,
    ensures
        ({
            let s = below(t, path);
            let p = path.push(go_left);
            &&& valid(t, p)
            &&& below(t, p) == (if go_left {
                *s->left
            } else {
                *s->right
            })
            &&& owner(parent, t, p) == s->node
            &&& before_path(t, p) == (if go_left {
                before_path(t, path)
            } else {
                before_path(t, path) + inorder(*s->left).push(s->node)
            })
            &&& after_path(t, p) == (if go_left {
                seq![s->node] + inorder(*s->right) + after_path(t, path)
            } else {
                after_path(t, path)
            })
        }),
    decreases path.len(),
{
    reveal_with_fuel(before_path, 2);
    reveal_with_fuel(after_path, 2);
    reveal_with_fuel(owner, 2);
    reveal_with_fuel(valid, 2);
    reveal_with_fuel(below, 2);
    let s = below(t, path);
    let p = path.push(go_left);
    if path.len() == 0 {
        assert(p.skip(1) =~= Seq::empty());
        assert(before_path(t, p) =~= (if go_left {
            before_path(t, path)
        } else {
            before_path(t, path) + inorder(*s->left).push(s->node)
        }));
        assert(after_path(t, p) =~= (if go_left {
            seq![s->node] + inorder(*s->right) + after_path(t, path)
        } else {
            after_path(t, path)
        }));
    } else {
        assert(p.skip(1) =~= path.skip(1).push(go_left));
        match t {
            Tree::Leaf => {},
            Tree::Node { left, node, right } => {
                if path[0] {
                    lemma_step(*left, path.skip(1), go_left, node);
                } else {
                    lemma_step(*right, path.skip(1), go_left, node);
                }
                assert(before_path(t, p) =~= (if go_left {
                    before_path(t, path)
                } else {
                    before_path(t, path) + inorder(*s->left).push(s->node)
                }));
                assert(after_path(t, p) =~= (if go_left {
                    seq![s->node] + inorder(*s->right) + after_path(t, path)
                } else {
                    after_path(t, path)
                }));
            },
        }
    }
}

/// The nodes of a represented tree exist.
pub proof fn lemma_members(n: Seq<rb_node>, idx: usize, parent: usize, t: Tree, x: usize)
    requires
        represents(n, idx, parent, t),
        inorder(t).contains(x),
    ensures
        x < n.len(),
        x != NIL,
    decreases t,
{
    match t {
        Tree::Leaf => {},
        Tree::Node { left, node, right } => {
            lemma_inorder_contains(t, x);
            if x != node {
                if inorder(*left).contains(x) {
                    lemma_members(n, n[node as int].rb_left, node, *left, x);
                } else {
                    lemma_members(n, n[node as int].rb_right, node, *right, x);
                }
            }
        },
    }
}

pub proof fn lemma_inorder_contains(t: Tree, x: usize)
    requires
        t is Node,
    ensures
        inorder(t).contains(x) == (x == t->node || inorder(*t->left).contains(x) || inorder(
            *t->right,
        ).contains(x)),
{
    let l = inorder(*t->left);
    let r = inorder(*t->right);
    let s = inorder(t);
    assert(s[l.len() as int] == t->node);
    if l.contains(x) {
        let i = l.index_of(x);
        assert(s[i] == x);
    }
    if r.contains(x) {
        let i = r.index_of(x);
        assert(s[l.len() + 1 + i] == x);
    }
    if s.contains(x) {
        let i = s.index_of(x);
        if i < l.len() {
            assert(l[i] == x);
        } else if i > l.len() {
            assert(r[i - l.len() - 1] == x);
        }
    }
}

/// Links of other nodes can change.
pub proof fn lemma_frame(n: Seq<rb_node>, n2: Seq<rb_node>, idx: usize, parent: usize, t: Tree)
    requires
        represents(n, idx, parent, t),
        n2.len() == n.len(),
        forall|x: usize| inorder(t).contains(x) ==> #[trigger] n2[x as int] == n[x as int],
    ensures
        represents(n2, idx, parent, t),
    decreases t,
{
    match t {
        Tree::Leaf => {},
        Tree::Node { left, node, right } => {
            lemma_inorder_contains(t, node);
            assert forall|x: usize| inorder(*left).contains(x) implies #[trigger] n2[x as int]
                == n[x as int] by {
                lemma_inorder_contains(t, x);
            }
            assert forall|x: usize| inorder(*right).contains(x) implies #[trigger] n2[x as int]
                == n[x as int] by {
                lemma_inorder_contains(t, x);
            }
            assert(n2[node as int] == n[node as int]);
            lemma_frame(n, n2, n[node as int].rb_left, node, *left);
            lemma_frame(n, n2, n[node as int].rb_right, node, *right);
        },
    }
}

/// `n` with another child.
pub open spec fn with_child(n: rb_node, go_left: bool, c: usize) -> rb_node {
    if go_left {
        rb_node { rb_left: c, ..n }
    } else {
        rb_node { rb_right: c, ..n }
    }
}

/// The nodes of a tree that are not below a path.
pub open spec fn around(t: Tree, path: Seq<bool>, x: usize) -> bool {
    before_path(t, path).contains(x) || after_path(t, path).contains(x)
}

proof fn lemma_around(t: Tree, path: Seq<bool>, x: usize)
    requires
        path.len() > 0,
        valid(t, path),
    ensures
        t is Node,
        around(t, path, x) == (x == t->node || (if path[0] {
            around(*t->left, path.skip(1), x) || inorder(*t->right).contains(x)
        } else {
            around(*t->right, path.skip(1), x) || inorder(*t->left).contains(x)
        })),
{
    let q = path.skip(1);
    if path[0] {
        let a = after_path(*t->left, q);
        let r = inorder(*t->right);
        let s = a.push(t->node) + r;
        assert(s == after_path(t, path));
        assert(s[a.len() as int] == t->node);
        if a.contains(x) {
            assert(s[a.index_of(x)] == x);
        }
        if r.contains(x) {
            assert(s[a.len() + 1 + r.index_of(x)] == x);
        }
        if s.contains(x) {
            let i = s.index_of(x);
            if i < a.len() {
                assert(a[i] == x);
            } else if i > a.len() {
                assert(r[i - a.len() - 1] == x);
            }
        }
    } else {
        let a = before_path(*t->right, q);
        let l = inorder(*t->left);
        let s = l.push(t->node) + a;
        assert(s == before_path(t, path));
        assert(s[l.len() as int] == t->node);
        if a.contains(x) {
            assert(s[l.len() + 1 + a.index_of(x)] == x);
        }
        if l.contains(x) {
            assert(s[l.index_of(x)] == x);
        }
        if s.contains(x) {
            let i = s.index_of(x);
            if i < l.len() {
                assert(l[i] == x);
            } else if i > l.len() {
                assert(a[i - l.len() - 1] == x);
            }
        }
    }
}

/// A tree has been put in place of what was below a path.
pub proof fn lemma_put(
    n: Seq<rb_node>,
    n2: Seq<rb_node>,
    idx: usize,
    parent: usize,
    t: Tree,
    path: Seq<bool>,
    c: usize,
    s: Tree,
)
    requires
        represents(n, idx, parent, t),
        valid(t, path),
        n2.len() == n.len(),
        inorder(t).no_duplicates(),
        represents(n2, c, owner(parent, t, path), s),
        forall|x: usize|
            #[trigger] around(t, path, x) ==> n2[x as int] == (if path.len() > 0 && x == owner(
                parent,
                t,
                path,
            ) {
                with_child(n[x as int], path.last(), c)
            } else {
                n[x as int]
            }),
    ensures
        represents(
            n2,
            if path.len() == 0 {
                c
            } else {
                idx
            },
            parent,
            put(t, path, s),
        ),
    decreases path.len(),
{
    reveal_with_fuel(owner, 2);
    if path.len() > 0 {
        let y = t->node;
        let q = path.skip(1);
        lemma_around(t, path, y);
        lemma_owner_around(parent, t, path);
        let (near, far) = if path[0] {
            (*t->left, *t->right)
        } else {
            (*t->right, *t->left)
        };
        lemma_cut(near, q, s);
        assert(inorder(near).no_duplicates()) by {
            let l = inorder(*t->left);
            assert forall|i: int, j: int|
                0 <= i < inorder(near).len() && 0 <= j < inorder(near).len() && i != j implies inorder(
                near,
            )[i] != inorder(near)[j] by {
                if path[0] {
                    assert(inorder(t)[i] == inorder(near)[i]);
                    assert(inorder(t)[j] == inorder(near)[j]);
                } else {
                    assert(inorder(t)[l.len() + 1 + i] == inorder(near)[i]);
                    assert(inorder(t)[l.len() + 1 + j] == inorder(near)[j]);
                }
            }
        }
        lemma_distinct_parts(t);
        assert forall|x: usize| inorder(far).contains(x) implies #[trigger] n2[x as int]
            == n[x as int] by {
            lemma_around(t, path, x);
            if q.len() > 0 {
                lemma_owner_around(y, near, q);
                lemma_around_inorder(near, q, owner(y, near, q));
            }
        }
        lemma_frame(
            n,
            n2,
            if path[0] {
                n[y as int].rb_right
            } else {
                n[y as int].rb_left
            },
            y,
            far,
        );
        if q.len() == 0 {
            assert(owner(parent, t, path) == y);
            assert(path.last() == path[0]);
            assert(q =~= Seq::empty());
            assert(put(near, q, s) == s);
        } else {
            assert(q.last() == path.last());
            lemma_owner_around(y, near, q);
            lemma_around_inorder(near, q, owner(y, near, q));
            assert(owner(parent, t, path) == owner(y, near, q));
            assert forall|x: usize| #[trigger] around(near, q, x) implies n2[x as int] == (if x == owner(
                y,
                near,
                q,
            ) {
                with_child(n[x as int], q.last(), c)
            } else {
                n[x as int]
            }) by {
                lemma_around(t, path, x);
                assert(around(t, path, x));
            }
            assert(n2[y as int] == n[y as int]);
        }
        lemma_put(
            n,
            n2,
            if path[0] {
                n[y as int].rb_left
            } else {
                n[y as int].rb_right
            },
            y,
            near,
            q,
            c,
            s,
        );
    }
}

/// The parts of a tree without duplicates have no node in common.
proof fn lemma_distinct_parts(t: Tree)
    requires
        t is Node,
        inorder(t).no_duplicates(),
    ensures
        forall|x: usize| inorder(*t->left).contains(x) ==> x != t->node && !#[trigger] inorder(
            *t->right,
        ).contains(x),
        forall|x: usize| #[trigger] inorder(*t->right).contains(x) ==> x != t->node && !inorder(
            *t->left,
        ).contains(x),
        !inorder(*t->left).contains(t->node),
{
    let l = inorder(*t->left);
    let r = inorder(*t->right);
    let s = inorder(t);
    assert(s[l.len() as int] == t->node);
    assert forall|x: usize| l.contains(x) implies x != t->node && !#[trigger] r.contains(x) by {
        let i = l.index_of(x);
        assert(s[i] == x);
        if r.contains(x) {
            let j = r.index_of(x);
            assert(s[l.len() + 1 + j] == x);
        }
    }
    assert forall|x: usize| #[trigger] r.contains(x) implies x != t->node && !l.contains(x) by {
        let j = r.index_of(x);
        assert(s[l.len() + 1 + j] == x);
        if l.contains(x) {
            assert(s[l.index_of(x)] == x);
        }
    }
    if l.contains(t->node) {
        assert(s[l.index_of(t->node)] == t->node);
    }
}

proof fn lemma_around_inorder(t: Tree, path: Seq<bool>, x: usize)
    requires
        valid(t, path),
        around(t, path, x),
    ensures
        inorder(t).contains(x),
{
    lemma_cut(t, path, Tree::Leaf);
    let a = before_path(t, path);
    let b = inorder(below(t, path));
    let c = after_path(t, path);
    let s = inorder(t);
    assert(s == a + b + c);
    if a.contains(x) {
        assert(s[a.index_of(x)] == x);
    } else {
        assert(s[a.len() + b.len() + c.index_of(x)] == x);
    }
}

/// The node above the end of a path is not below it.
pub proof fn lemma_owner_around(parent: usize, t: Tree, path: Seq<bool>)
    requires
        path.len() > 0,
        valid(t, path),
    ensures
        around(t, path, owner(parent, t, path)),
    decreases path.len(),
{
    reveal_with_fuel(owner, 2);
    let q = path.skip(1);
    lemma_around(t, path, owner(parent, t, path));
    if q.len() > 0 {
        if path[0] {
            lemma_owner_around(t->node, *t->left, q);
        } else {
            lemma_owner_around(t->node, *t->right, q);
        }
    }
}

/// Whether `root` is the top of a tree in `n`.
pub open spec fn is_tree(n: Seq<rb_node>, root: rb_root) -> bool {
    &&& represents(n, root.rb_node, NIL, root.shape@)
    &&& inorder(root.shape@).no_duplicates()
}

/// Whether the nodes outside of `t`, other than `x`, are as they were.
pub open spec fn outside_same(n: Seq<rb_node>, n2: Seq<rb_node>, t: Tree, x: usize) -> bool {
    &&& n2.len() == n.len()
    &&& forall|y: usize|
        y < n.len() && y != x && !#[trigger] inorder(t).contains(y) ==> n2[y as int] == n[y as int]
}

/// The top node of a tree.
pub open spec fn top(t: Tree) -> usize {
    match t {
        Tree::Leaf => NIL,
        Tree::Node { left, node, right } => node,
    }
}

/// Where the links of a node lead.
pub proof fn lemma_children(n: Seq<rb_node>, idx: usize, parent: usize, t: Tree)
    requires
        represents(n, idx, parent, t),
    ensures
        idx == top(t),
        (idx == NIL) == (t is Leaf),
        inorder(t).len() == 0 <==> t is Leaf,
        t is Node ==> {
            &&& n[idx as int].rb_parent == parent
            &&& n[idx as int].rb_left == top(*t->left)
            &&& n[idx as int].rb_right == top(*t->right)
            &&& (top(*t->left) == NIL) == (*t->left is Leaf)
            &&& (top(*t->right) == NIL) == (*t->right is Leaf)
            &&& *t->left is Leaf ==> inorder(*t->left) == Seq::<usize>::empty()
            &&& *t->right is Leaf ==> inorder(*t->right) == Seq::<usize>::empty()
        },
{
    reveal_with_fuel(represents, 2);
    reveal_with_fuel(inorder, 2);
}

/// The path to a node.
pub open spec fn path_of(t: Tree, x: usize) -> Seq<bool>
    decreases t,
{
    match t {
        Tree::Leaf => Seq::empty(),
        Tree::Node { left, node, right } => if x == node {
            Seq::empty()
        } else if inorder(*left).contains(x) {
            path_of(*left, x).insert(0, true)
        } else {
            path_of(*right, x).insert(0, false)
        },
    }
}

pub proof fn lemma_path_of(t: Tree, x: usize)
    requires
        inorder(t).contains(x),
    ensures
        valid(t, path_of(t, x)),
        below(t, path_of(t, x)) is Node,
        below(t, path_of(t, x))->node == x,
    decreases t,
{
    match t {
        Tree::Leaf => {},
        Tree::Node { left, node, right } => {
            lemma_inorder_contains(t, x);
            if x != node {
                let (c, q) = if inorder(*left).contains(x) {
                    (*left, path_of(*left, x))
                } else {
                    (*right, path_of(*right, x))
                };
                if inorder(*left).contains(x) {
                    lemma_path_of(*left, x);
                } else {
                    lemma_path_of(*right, x);
                }
                assert(path_of(t, x).skip(1) =~= q);
            }
        },
    }
}

/// What the links make of the tree below a path.
pub proof fn lemma_at(n: Seq<rb_node>, idx: usize, parent: usize, t: Tree, path: Seq<bool>)
    requires
        represents(n, idx, parent, t),
        valid(t, path),
    ensures
        represents(n, top(below(t, path)), owner(parent, t, path), below(t, path)),
    decreases path.len(),
{
    if path.len() > 0 {
        match t {
            Tree::Leaf => {},
            Tree::Node { left, node, right } => {
                if path[0] {
                    lemma_at(n, n[node as int].rb_left, node, *left, path.skip(1));
                } else {
                    lemma_at(n, n[node as int].rb_right, node, *right, path.skip(1));
                }
            },
        }
    }
}

/// A path without its last step.
pub proof fn lemma_prefix(t: Tree, path: Seq<bool>)
    requires
        valid(t, path),
        path.len() > 0,
    ensures
        valid(t, path.drop_last()),
        below(t, path.drop_last()) is Node,
    decreases path.len(),
{
    reveal_with_fuel(valid, 2);
    reveal_with_fuel(below, 2);
    let p = path.drop_last();
    if path.len() > 1 {
        assert(p.skip(1) =~= path.skip(1).drop_last());
        match t {
            Tree::Leaf => {},
            Tree::Node { left, node, right } => {
                if path[0] {
                    lemma_prefix(*left, path.skip(1));
                } else {
                    lemma_prefix(*right, path.skip(1));
                }
            },
        }
    } else {
        assert(p =~= Seq::empty());
    }
}

/// The nodes around and below a path are different ones.
pub proof fn lemma_around_not_below(t: Tree, path: Seq<bool>, x: usize)
    requires
        valid(t, path),
        inorder(t).no_duplicates(),
        around(t, path, x),
    ensures
        !inorder(below(t, path)).contains(x),
{
    lemma_cut(t, path, Tree::Leaf);
    let a = before_path(t, path);
    let b = inorder(below(t, path));
    let c = after_path(t, path);
    let s = inorder(t);
    assert(s == a + b + c);
    if b.contains(x) {
        let j = b.index_of(x);
        assert(s[a.len() + j] == x);
        if a.contains(x) {
            assert(s[a.index_of(x)] == x);
        } else {
            assert(s[a.len() + b.len() + c.index_of(x)] == x);
        }
    }
}

/// The node after `x` in the order `o`, if there is one.
pub open spec fn next_in(o: Seq<usize>, x: usize) -> usize {
    let i = o.index_of(x);
    if i + 1 < o.len() {
        o[i + 1]
    } else {
        NIL
    }
}

/// What comes behind a node: the first node below it on the right, or the first one behind it.
proof fn lemma_next(t: Tree, path: Seq<bool>)
    requires
        valid(t, path),
        below(t, path) is Node,
        inorder(t).no_duplicates(),
    ensures
        ({
            let s = below(t, path);
            let r = inorder(*s->right);
            let a = after_path(t, path);
            next_in(inorder(t), s->node) == (if r.len() > 0 {
                r[0]
            } else if a.len() > 0 {
                a[0]
            } else {
                NIL
            })
        }),
{
    lemma_cut(t, path, Tree::Leaf);
    let s = below(t, path);
    let b = before_path(t, path);
    let l = inorder(*s->left);
    let r = inorder(*s->right);
    let a = after_path(t, path);
    let o = inorder(t);
    assert(o == b + (l.push(s->node) + r) + a);
    let i: int = b.len() + l.len() as int;
    assert(o[i] == s->node);
    assert(o.index_of(s->node) == i);
    if r.len() > 0 {
        assert(o[i + 1] == r[0]);
    } else if a.len() > 0 {
        assert(o[i + 1] == a[0]);
    }
}

/// Finds the first node below `x`, which is the top of `s`.
fn first_below<P: RbNodes>(pool: &P, x: usize, Ghost(parent): Ghost<usize>, Ghost(s): Ghost<Tree>) -> (y: usize)
    requires
        represents(pool.links(), x, parent, s),
        s is Node,
    ensures
        y == inorder(s)[0],
        inorder(s).len() > 0,
        y < pool.links().len(),
        pool.links()[y as int].rb_left == NIL,
{
    let mut y: usize = x;
    let ghost mut cur = s;
    let ghost mut up = parent;
    loop
        invariant
            represents(pool.links(), y, up, cur),
            cur is Node,
            inorder(cur).len() > 0,
            inorder(s).len() > 0,
            inorder(s)[0] == inorder(cur)[0],
        ensures
            y == inorder(cur)[0],
            pool.links()[y as int].rb_left == NIL,
            y < pool.links().len(),
        decreases cur,
    {
        proof {
            lemma_children(pool.links(), y, up, cur);
        }
        let l = pool.get(y).rb_left;
        if l == NIL {
            break;
        }
        proof {
            let c = *cur->left;
            assert(c is Node);
            assert(inorder(c).len() > 0) by {
                lemma_children(pool.links(), l, y, c);
            }
            assert(inorder(cur)[0] == inorder(c)[0]);
            up = y;
            cur = c;
        }
        y = l;
    }
    y
}

/// Finds the first node of a tree.
pub fn rb_first<P: RbNodes>(pool: &P, root: &rb_root) -> (y: usize)
    requires
        is_tree(pool.links(), *root),
    ensures
        y == (if inorder(root.shape@).len() > 0 {
            inorder(root.shape@)[0]
        } else {
            NIL
        }),
{
    if root.rb_node == NIL {
        NIL
    } else {
        first_below(pool, root.rb_node, Ghost(NIL), Ghost(root.shape@))
    }
}

/// Finds the node after `x`.
pub fn rb_next<P: RbNodes>(pool: &P, root: &rb_root, x: usize) -> (y: usize)
    requires
        is_tree(pool.links(), *root),
        inorder(root.shape@).contains(x),
    ensures
        y == next_in(inorder(root.shape@), x),
{
    let ghost t = root.shape@;
    let ghost n = pool.links();
    let ghost path = path_of(t, x);
    proof {
        lemma_path_of(t, x);
        lemma_at(n, root.rb_node, NIL, t, path);
        lemma_next(t, path);
        lemma_children(n, x, owner(NIL, t, path), below(t, path));
    }
    let node = pool.get(x);
    if node.rb_right != NIL {
        return first_below(pool, node.rb_right, Ghost(x), Ghost(*below(t, path)->right));
    }
    let mut child: usize = x;
    let mut p: usize = node.rb_parent;
    let ghost mut q = path;
    proof {
        if q.len() > 0 {
            lemma_owner_around(NIL, t, q);
            lemma_around_inorder(t, q, owner(NIL, t, q));
            lemma_members(n, root.rb_node, NIL, t, owner(NIL, t, q));
        }
    }
    while p != NIL && pool.get(p).rb_right == child
        invariant
            n == pool.links(),
            t == root.shape@,
            is_tree(n, *root),
            valid(t, q),
            below(t, q) is Node,
            child == below(t, q)->node,
            p == owner(NIL, t, q),
            after_path(t, q) == after_path(t, path),
            p == NIL || p < n.len(),
            p != NIL ==> q.len() > 0,
        decreases q.len(),
    {
        proof {
            let q1 = q.drop_last();
            lemma_prefix(t, q);
            lemma_step(t, q1, q.last(), NIL);
            assert(q1.push(q.last()) =~= q);
            lemma_at(n, root.rb_node, NIL, t, q1);
            lemma_at(n, root.rb_node, NIL, t, q);
            lemma_children(n, p, owner(NIL, t, q1), below(t, q1));
            assert(p == below(t, q1)->node);
            assert(!q.last()) by {
                if q.last() {
                    // The child would be on both sides.
                    lemma_both_sides(n, root.rb_node, t, q1, child);
                }
            }
            q = q1;
            if q.len() > 0 {
                lemma_owner_around(NIL, t, q);
                lemma_around_inorder(t, q, owner(NIL, t, q));
                lemma_members(n, root.rb_node, NIL, t, owner(NIL, t, q));
            }
        }
        child = p;
        p = pool.get(p).rb_parent;
    }
    proof {
        if q.len() > 0 {
            let q1 = q.drop_last();
            lemma_prefix(t, q);
            lemma_step(t, q1, q.last(), NIL);
            assert(q1.push(q.last()) =~= q);
            lemma_at(n, root.rb_node, NIL, t, q1);
            lemma_children(n, top(below(t, q1)), owner(NIL, t, q1), below(t, q1));
            lemma_owner_around(NIL, t, q);
            lemma_around_inorder(t, q, owner(NIL, t, q));
            lemma_members(n, root.rb_node, NIL, t, owner(NIL, t, q));
            assert(q.last());
            assert(after_path(t, q)[0] == p);
        } else {
            assert(after_path(t, q) =~= Seq::empty());
            assert(p == NIL);
        }
    }
    p
}

/// A node is not on both sides of another.
proof fn lemma_both_sides(n: Seq<rb_node>, idx: usize, t: Tree, path: Seq<bool>, child: usize)
    requires
        represents(n, idx, NIL, t),
        inorder(t).no_duplicates(),
        valid(t, path),
        below(t, path) is Node,
        child != NIL,
        n[below(t, path)->node as int].rb_left == child,
    ensures
        n[below(t, path)->node as int].rb_right != child,
{
    lemma_at(n, idx, NIL, t, path);
    let s = below(t, path);
    lemma_children(n, s->node, owner(NIL, t, path), s);
    lemma_cut(t, path, Tree::Leaf);
    let a = before_path(t, path);
    let l = inorder(*s->left);
    let r = inorder(*s->right);
    let o = inorder(t);
    assert(o == a + (l.push(s->node) + r) + after_path(t, path));
    lemma_inorder_contains(*s->left, child);
    let i = l.index_of(child);
    assert(o[a.len() + i] == child);
    if n[s->node as int].rb_right == child {
        lemma_inorder_contains(*s->right, child);
        let j = r.index_of(child);
        assert(o[a.len() + l.len() + 1 + j] == child);
    }
}

/// The top of a tree gets another parent.
proof fn lemma_reparent(n: Seq<rb_node>, n2: Seq<rb_node>, idx: usize, p: usize, p2: usize, t: Tree)
    requires
        represents(n, idx, p, t),
        n2.len() == n.len(),
        inorder(t).no_duplicates(),
        forall|x: usize|
            inorder(t).contains(x) ==> #[trigger] n2[x as int] == (if x == idx {
                rb_node { rb_parent: p2, ..n[x as int] }
            } else {
                n[x as int]
            }),
    ensures
        represents(n2, idx, p2, t),
{
    if t is Node {
        lemma_distinct_parts(t);
        lemma_inorder_contains(t, idx);
        assert forall|x: usize| inorder(*t->left).contains(x) implies #[trigger] n2[x as int]
            == n[x as int] by {
            lemma_inorder_contains(t, x);
        }
        assert forall|x: usize| inorder(*t->right).contains(x) implies #[trigger] n2[x as int]
            == n[x as int] by {
            lemma_inorder_contains(t, x);
        }
        assert(n2[idx as int] == (rb_node { rb_parent: p2, ..n[idx as int] }));
        lemma_frame(n, n2, n[idx as int].rb_left, idx, *t->left);
        lemma_frame(n, n2, n[idx as int].rb_right, idx, *t->right);
    }
}

/// Makes `new` the child of `parent`, or the top of the tree, in place of `old_child`.
fn rb_change_child<P: RbNodes>(pool: &mut P, root: &mut rb_root, old_child: usize, new: usize, parent: usize)
    requires
        parent == NIL || parent < old(pool).links().len(),
    ensures
        final(pool).rest() == old(pool).rest(),
        final(pool).links() == (if parent == NIL {
            old(pool).links()
        } else {
            old(pool).links().update(
                parent as int,
                with_child(
                    old(pool).links()[parent as int],
                    old(pool).links()[parent as int].rb_left == old_child,
                    new,
                ),
            )
        }),
        final(root).rb_node == (if parent == NIL {
            new
        } else {
            old(root).rb_node
        }),
        final(root).shape == old(root).shape,
{
    if parent == NIL {
        root.rb_node = new;
    } else {
        let mut n = pool.get(parent);
        if n.rb_left == old_child {
            n.rb_left = new;
        } else {
            n.rb_right = new;
        }
        pool.set(parent, n);
    }
}

/// Sets the parent of a node, if there is one.
fn rb_set_parent<P: RbNodes>(pool: &mut P, x: usize, parent: usize)
    requires
        x == NIL || x < old(pool).links().len(),
    ensures
        final(pool).rest() == old(pool).rest(),
        final(pool).links() == (if x == NIL {
            old(pool).links()
        } else {
            old(pool).links().update(
                x as int,
                rb_node { rb_parent: parent, ..old(pool).links()[x as int] },
            )
        }),
{
    if x != NIL {
        let mut n = pool.get(x);
        n.rb_parent = parent;
        pool.set(x, n);
    }
}

/// On which side of its parent a node at the end of a path is.
proof fn lemma_side(n: Seq<rb_node>, idx: usize, t: Tree, path: Seq<bool>)
    requires
        represents(n, idx, NIL, t),
        inorder(t).no_duplicates(),
        valid(t, path),
        path.len() > 0,
        below(t, path) is Node,
    ensures
        ({
            let p = owner(NIL, t, path);
            let x = below(t, path)->node;
            &&& p < n.len()
            &&& p != NIL
            &&& (n[p as int].rb_left == x) == path.last()
            &&& around(t, path, p)
        }),
{
    let q = path.drop_last();
    let x = below(t, path)->node;
    lemma_prefix(t, path);
    lemma_step(t, q, path.last(), NIL);
    assert(q.push(path.last()) =~= path);
    lemma_at(n, idx, NIL, t, q);
    lemma_at(n, idx, NIL, t, path);
    lemma_children(n, top(below(t, q)), owner(NIL, t, q), below(t, q));
    lemma_owner_around(NIL, t, path);
    lemma_around_inorder(t, path, owner(NIL, t, path));
    lemma_members(n, idx, NIL, t, owner(NIL, t, path));
    if !path.last() && n[owner(NIL, t, path) as int].rb_left == x {
        lemma_both_sides(n, idx, t, q, x);
    }
}

/// Puts the node `c`, the top of `s` or none, in place of the node `x` at the end of a path, where the
/// links of `s` are in order but for the parent of `c`.
fn rb_replace<P: RbNodes>(
    pool: &mut P,
    root: &mut rb_root,
    x: usize,
    c: usize,
    Ghost(path): Ghost<Seq<bool>>,
    Ghost(s): Ghost<Tree>,
    Ghost(from): Ghost<usize>,
)
    requires
        is_tree(old(pool).links(), *old(root)),
        valid(old(root).shape@, path),
        below(old(root).shape@, path) is Node,
        below(old(root).shape@, path)->node == x,
        represents(old(pool).links(), c, from, s),
        inorder(s).no_duplicates(),
        forall|y: usize|
            #[trigger] inorder(s).contains(y) ==> !around(old(root).shape@, path, y),
    ensures
        represents(final(pool).links(), final(root).rb_node, NIL, put(old(root).shape@, path, s)),
        final(root).shape@ == put(old(root).shape@, path, s),
        final(pool).rest() == old(pool).rest(),
        final(pool).links().len() == old(pool).links().len(),
        forall|y: usize|
            y < old(pool).links().len() && !inorder(s).contains(y) && !around(
                old(root).shape@,
                path,
                y,
            ) ==> #[trigger] final(pool).links()[y as int] == old(pool).links()[y as int],
{
    let ghost t = root.shape@;
    let ghost n = pool.links();
    let ghost idx = root.rb_node;
    let ghost p = owner(NIL, t, path);
    proof {
        lemma_at(n, idx, NIL, t, path);
        lemma_children(n, x, p, below(t, path));
        lemma_children(n, c, from, s);
        if path.len() > 0 {
            lemma_side(n, idx, t, path);
        }
        if s is Node {
            lemma_inorder_contains(s, c);
            lemma_members(n, c, from, s, c);
        }
        assert(path.len() == 0 ==> p == NIL);
    }
    let parent = pool.get(x).rb_parent;
    rb_change_child(pool, root, x, c, parent);
    let ghost n1 = pool.links();
    rb_set_parent(pool, c, parent);
    proof {
        let n2 = pool.links();
        assert forall|y: usize| inorder(s).contains(y) implies #[trigger] n2[y as int] == (if y == c {
            rb_node { rb_parent: p, ..n[y as int] }
        } else {
            n[y as int]
        }) by {
            assert(!around(t, path, y));
            lemma_members(n, c, from, s, y);
        }
        lemma_reparent(n, n2, c, from, p, s);
        assert forall|y: usize| #[trigger] around(t, path, y) implies n2[y as int] == (if path.len() > 0
            && y == p {
            with_child(n[y as int], path.last(), c)
        } else {
            n[y as int]
        }) by {
            lemma_around_inorder(t, path, y);
            lemma_members(n, idx, NIL, t, y);
            if s is Node && y == c {
                assert(!around(t, path, c));
            }
        }
        lemma_put(n, n2, idx, NIL, t, path, c, s);
        root.shape@ = put(t, path, s);
    }
}

/// Puts `x`, which is in no tree, in the place at the end of a path.
pub(crate) fn rb_link_node<P: RbNodes>(
    pool: &mut P,
    root: &mut rb_root,
    x: usize,
    parent: usize,
    go_left: bool,
    Ghost(path): Ghost<Seq<bool>>,
)
    requires
        is_tree(old(pool).links(), *old(root)),
        valid(old(root).shape@, path),
        below(old(root).shape@, path) is Leaf,
        parent == owner(NIL, old(root).shape@, path),
        path.len() > 0 ==> go_left == path.last(),
        x < old(pool).links().len(),
        !inorder(old(root).shape@).contains(x),
    ensures
        is_tree(final(pool).links(), *final(root)),
        inorder(final(root).shape@) == before_path(old(root).shape@, path).push(x) + after_path(
            old(root).shape@,
            path,
        ),
        final(pool).rest() == old(pool).rest(),
        outside_same(old(pool).links(), final(pool).links(), old(root).shape@, x),
{
    let ghost t = root.shape@;
    let ghost n = pool.links();
    let ghost idx = root.rb_node;
    let ghost s = Tree::Node { left: Box::new(Tree::Leaf), node: x, right: Box::new(Tree::Leaf) };
    proof {
        if path.len() > 0 {
            lemma_owner_around(NIL, t, path);
            lemma_around_inorder(t, path, parent);
            lemma_members(n, idx, NIL, t, parent);
        }
        lemma_cut(t, path, s);
    }
    let _ = pool.get(x);
    pool.set(x, rb_node { rb_parent: parent, rb_right: NIL, rb_left: NIL });
    if parent == NIL {
        root.rb_node = x;
    } else {
        let mut m = pool.get(parent);
        if go_left {
            m.rb_left = x;
        } else {
            m.rb_right = x;
        }
        pool.set(parent, m);
    }
    proof {
        let n2 = pool.links();
        reveal_with_fuel(represents, 2);
        reveal_with_fuel(inorder, 2);
        assert(path.len() == 0 ==> parent == NIL);
        assert(represents(n2, x, parent, s));
        assert forall|y: usize| #[trigger] around(t, path, y) implies n2[y as int] == (if path.len() > 0
            && y == parent {
            with_child(n[y as int], path.last(), x)
        } else {
            n[y as int]
        }) by {
            lemma_around_inorder(t, path, y);
            lemma_members(n, idx, NIL, t, y);
        }
        lemma_put(n, n2, idx, NIL, t, path, x, s);
        let a = before_path(t, path);
        let c = after_path(t, path);
        assert(inorder(s) =~= seq![x]);
        assert(inorder(below(t, path)) =~= Seq::empty());
        let o = inorder(put(t, path, s));
        assert(o =~= a.push(x) + c);
        assert(inorder(t) =~= a + c);
        assert(o.no_duplicates()) by {
            assert forall|i: int, j: int| 0 <= i < o.len() && 0 <= j < o.len() && i != j implies o[i]
                != o[j] by {
                let i1 = if i < a.len() {
                    i
                } else {
                    i - 1
                };
                let j1 = if j < a.len() {
                    j
                } else {
                    j - 1
                };
                assert(i != a.len() ==> o[i] == inorder(t)[i1]);
                assert(j != a.len() ==> o[j] == inorder(t)[j1]);
                assert(i != a.len() ==> inorder(t).contains(o[i]));
                assert(j != a.len() ==> inorder(t).contains(o[j]));
            }
        }
        root.shape@ = put(t, path, s);
        assert forall|y: usize| y < n.len() && y != x && !#[trigger] inorder(t).contains(y) implies n2[y as int]
            == n[y as int] by {
            if path.len() > 0 {
                assert(inorder(t).contains(parent));
            }
        }
    }
}

/// Where a node is in the order of its tree.
proof fn lemma_index(t: Tree, path: Seq<bool>)
    requires
        valid(t, path),
        below(t, path) is Node,
        inorder(t).no_duplicates(),
    ensures
        ({
            let s = below(t, path);
            let i = before_path(t, path).len() + inorder(*s->left).len();
            &&& inorder(t).index_of(s->node) == i
            &&& inorder(t).contains(s->node)
            &&& 0 <= i < inorder(t).len()
            &&& inorder(t) == before_path(t, path) + (inorder(*s->left).push(s->node) + inorder(
                *s->right,
            )) + after_path(t, path)
        }),
{
    lemma_cut(t, path, Tree::Leaf);
    let s = below(t, path);
    let b = before_path(t, path);
    let l = inorder(*s->left);
    let o = inorder(t);
    assert(o == b + (l.push(s->node) + inorder(*s->right)) + after_path(t, path));
    let i: int = b.len() + l.len() as int;
    assert(o[i] == s->node);
    assert(o.index_of(s->node) == i);
}

/// The nodes below a path, as a part of the order, are different ones.
proof fn lemma_below_distinct(t: Tree, path: Seq<bool>)
    requires
        valid(t, path),
        inorder(t).no_duplicates(),
    ensures
        inorder(below(t, path)).no_duplicates(),
        below(t, path) is Node ==> inorder(*below(t, path)->left).no_duplicates() && inorder(
            *below(t, path)->right,
        ).no_duplicates(),
        forall|y: usize|
            #[trigger] inorder(below(t, path)).contains(y) ==> !around(t, path, y) && inorder(
                t,
            ).contains(y),
{
    lemma_cut(t, path, Tree::Leaf);
    let a = before_path(t, path);
    let b = inorder(below(t, path));
    let o = inorder(t);
    assert(o == a + b + after_path(t, path));
    assert forall|i: int, j: int| 0 <= i < b.len() && 0 <= j < b.len() && i != j implies b[i] != b[j] by {
        assert(o[a.len() + i] == b[i] && o[a.len() + j] == b[j]);
    }
    if below(t, path) is Node {
        let s = below(t, path);
        let l = inorder(*s->left);
        let r = inorder(*s->right);
        assert forall|i: int, j: int| 0 <= i < l.len() && 0 <= j < l.len() && i != j implies l[i]
            != l[j] by {
            assert(b[i] == l[i] && b[j] == l[j]);
        }
        assert forall|i: int, j: int| 0 <= i < r.len() && 0 <= j < r.len() && i != j implies r[i]
            != r[j] by {
            assert(b[l.len() + 1 + i] == r[i] && b[l.len() + 1 + j] == r[j]);
        }
    }
    assert forall|y: usize| #[trigger] b.contains(y) implies !around(t, path, y) && o.contains(y) by {
        assert(o[a.len() + b.index_of(y)] == y);
        if around(t, path, y) {
            lemma_around_not_below(t, path, y);
        }
    }
}

/// Takes a node with at most one child out of a tree.
fn rb_splice_out<P: RbNodes>(pool: &mut P, root: &mut rb_root, x: usize)
    requires
        is_tree(old(pool).links(), *old(root)),
        inorder(old(root).shape@).contains(x),
        old(pool).links()[x as int].rb_left == NIL || old(pool).links()[x as int].rb_right == NIL,
    ensures
        is_tree(final(pool).links(), *final(root)),
        inorder(final(root).shape@) == inorder(old(root).shape@).remove(
            inorder(old(root).shape@).index_of(x),
        ),
        final(pool).rest() == old(pool).rest(),
        outside_same(old(pool).links(), final(pool).links(), old(root).shape@, x),
{
    let ghost t = root.shape@;
    let ghost n = pool.links();
    let ghost path = path_of(t, x);
    let ghost b = below(t, path);
    proof {
        lemma_path_of(t, x);
        lemma_at(n, root.rb_node, NIL, t, path);
        lemma_children(n, x, owner(NIL, t, path), b);
        lemma_below_distinct(t, path);
        lemma_index(t, path);
        lemma_members(n, root.rb_node, NIL, t, x);
    }
    let node = pool.get(x);
    let c = if node.rb_left == NIL {
        node.rb_right
    } else {
        node.rb_left
    };
    let ghost s = if node.rb_left == NIL {
        *b->right
    } else {
        *b->left
    };
    proof {
        assert forall|y: usize| #[trigger] inorder(s).contains(y) implies !around(t, path, y) by {
            lemma_inorder_contains(b, y);
        }
        lemma_cut(t, path, s);
        let o = inorder(t);
        assert(before_path(t, path) + inorder(s) + after_path(t, path) =~= o.remove(
            o.index_of(x),
        ));
    }
    rb_replace(pool, root, x, c, Ghost(path), Ghost(s), Ghost(x));
    proof {
        assert forall|y: usize| y < n.len() && y != x && !#[trigger] inorder(t).contains(y) implies pool.links()[y as int]
            == n[y as int] by {
            if around(t, path, y) {
                lemma_around_inorder(t, path, y);
            }
            if inorder(s).contains(y) {
                lemma_inorder_contains(b, y);
            }
        }
    }
}

/// Puts `y`, which is in no tree, in the place of `x`.
fn rb_take_place<P: RbNodes>(pool: &mut P, root: &mut rb_root, x: usize, y: usize)
    requires
        is_tree(old(pool).links(), *old(root)),
        inorder(old(root).shape@).contains(x),
        !inorder(old(root).shape@).contains(y),
        y < old(pool).links().len(),
    ensures
        is_tree(final(pool).links(), *final(root)),
        inorder(final(root).shape@) == inorder(old(root).shape@).update(
            inorder(old(root).shape@).index_of(x),
            y,
        ),
        final(pool).rest() == old(pool).rest(),
        outside_same(old(pool).links(), final(pool).links(), old(root).shape@, y),
{
    let ghost t1 = root.shape@;
    let ghost n1 = pool.links();
    let ghost o1 = inorder(t1);
    let ghost path1 = path_of(t1, x);
    let ghost b1 = below(t1, path1);
    let ghost idx1 = root.rb_node;
    proof {
        lemma_members(n1, idx1, NIL, t1, x);
        lemma_path_of(t1, x);
        lemma_at(n1, idx1, NIL, t1, path1);
        lemma_children(n1, x, owner(NIL, t1, path1), b1);
        lemma_below_distinct(t1, path1);
        lemma_index(t1, path1);
        lemma_distinct_parts(b1);
        if path1.len() > 0 {
            lemma_side(n1, idx1, t1, path1);
        }
        lemma_inorder_contains(b1, x);
        if *b1->left is Node {
            lemma_children(n1, top(*b1->left), x, *b1->left);
            lemma_inorder_contains(*b1->left, top(*b1->left));
            lemma_inorder_contains(b1, top(*b1->left));
            lemma_members(n1, idx1, NIL, t1, top(*b1->left));
        }
        if *b1->right is Node {
            lemma_children(n1, top(*b1->right), x, *b1->right);
            lemma_inorder_contains(*b1->right, top(*b1->right));
            lemma_inorder_contains(b1, top(*b1->right));
            lemma_members(n1, idx1, NIL, t1, top(*b1->right));
        }
        assert(path1.len() == 0 ==> owner(NIL, t1, path1) == NIL);
    }
    let m = pool.get(x);
    pool.set(y, m);
    rb_set_parent(pool, m.rb_left, y);
    rb_set_parent(pool, m.rb_right, y);
    rb_change_child(pool, root, x, y, m.rb_parent);
    proof {
        let n2 = pool.links();
        let p = owner(NIL, t1, path1);
        let s = Tree::Node { left: b1->left, node: y, right: b1->right };
        assert forall|z: usize| inorder(*b1->left).contains(z) implies #[trigger] n2[z as int] == (if z
            == m.rb_left {
            rb_node { rb_parent: y, ..n1[z as int] }
        } else {
            n1[z as int]
        }) by {
            lemma_inorder_contains(b1, z);
            lemma_members(n1, idx1, NIL, t1, z);
            if m.rb_right != NIL {
                assert(inorder(*b1->right).contains(m.rb_right));
            }
        }
        assert forall|z: usize| inorder(*b1->right).contains(z) implies #[trigger] n2[z as int] == (if z
            == m.rb_right {
            rb_node { rb_parent: y, ..n1[z as int] }
        } else {
            n1[z as int]
        }) by {
            lemma_inorder_contains(b1, z);
            lemma_members(n1, idx1, NIL, t1, z);
            if m.rb_left != NIL {
                assert(inorder(*b1->left).contains(m.rb_left));
            }
        }
        lemma_reparent(n1, n2, m.rb_left, x, y, *b1->left);
        lemma_reparent(n1, n2, m.rb_right, x, y, *b1->right);
        if p == y {
            lemma_around_inorder(t1, path1, y);
        }
        assert(n2[y as int] == m);
        assert(represents(n2, y, p, s));
        assert forall|z: usize| #[trigger] around(t1, path1, z) implies n2[z as int] == (if path1.len() > 0
            && z == p {
            with_child(n1[z as int], path1.last(), y)
        } else {
            n1[z as int]
        }) by {
            lemma_around_inorder(t1, path1, z);
            lemma_members(n1, idx1, NIL, t1, z);
            lemma_around_not_below(t1, path1, z);
            lemma_inorder_contains(b1, z);
        }
        lemma_put(n1, n2, idx1, NIL, t1, path1, y, s);
        lemma_cut(t1, path1, s);
        root.shape@ = put(t1, path1, s);
        let o2 = inorder(root.shape@);
        assert(inorder(s) =~= inorder(*b1->left).push(y) + inorder(*b1->right));
        assert(o2 =~= o1.update(o1.index_of(x), y));
        assert(o2.no_duplicates()) by {
            assert forall|i: int, j: int| 0 <= i < o2.len() && 0 <= j < o2.len() && i != j implies o2[i]
                != o2[j] by {
                assert(o1.contains(o1[i]) && o1.contains(o1[j]));
            }
        }
        assert forall|z: usize| z < n1.len() && z != y && !#[trigger] o1.contains(z) implies n2[z as int]
            == n1[z as int] by {
            if path1.len() > 0 && z == p {
                lemma_around_inorder(t1, path1, p);
            }
        }
    }
}

/// Takes a node out of a tree. The links of the node itself are left as they are.
pub fn rb_erase<P: RbNodes>(pool: &mut P, root: &mut rb_root, x: usize)
    requires
        is_tree(old(pool).links(), *old(root)),
        inorder(old(root).shape@).contains(x),
    ensures
        is_tree(final(pool).links(), *final(root)),
        inorder(final(root).shape@) == inorder(old(root).shape@).remove(
            inorder(old(root).shape@).index_of(x),
        ),
        final(pool).rest() == old(pool).rest(),
        outside_same(old(pool).links(), final(pool).links(), old(root).shape@, x),
{
    let ghost t = root.shape@;
    let ghost n0 = pool.links();
    let ghost o = inorder(t);
    let ghost i = o.index_of(x);
    proof {
        lemma_members(n0, root.rb_node, NIL, t, x);
    }
    let node = pool.get(x);
    if node.rb_left == NIL || node.rb_right == NIL {
        rb_splice_out(pool, root, x);
        return;
    }
    let ghost path = path_of(t, x);
    proof {
        lemma_path_of(t, x);
        lemma_at(n0, root.rb_node, NIL, t, path);
        lemma_children(n0, x, owner(NIL, t, path), below(t, path));
        lemma_next(t, path);
        lemma_below_distinct(t, path);
        lemma_index(t, path);
    }
    // The node behind takes the place of the node.
    let y = first_below(pool, node.rb_right, Ghost(x), Ghost(*below(t, path)->right));
    proof {
        assert(inorder(*below(t, path)->right).contains(y));
        lemma_inorder_contains(below(t, path), y);
        assert(o.contains(y));
        assert(o[i + 1] == y && o[i] == x);
        assert(o.index_of(y) == i + 1);
    }
    rb_splice_out(pool, root, y);
    let ghost o1 = inorder(root.shape@);
    let ghost n1 = pool.links();
    proof {
        assert(o1 == o.remove(i + 1));
        assert(o1[i] == x);
        assert(o1.contains(x));
        assert(o1.index_of(x) == i);
        assert forall|z: usize| o1.contains(z) implies o.contains(z) && z != y by {
            let j = o1.index_of(z);
            let k = if j < i + 1 {
                j
            } else {
                j + 1
            };
            assert(o[k] == z);
            assert(k != i + 1);
        }
    }
    rb_take_place(pool, root, x, y);
    proof {
        assert(inorder(root.shape@) =~= o.remove(i));
        let n2 = pool.links();
        assert forall|z: usize| z < n0.len() && z != x && !#[trigger] o.contains(z) implies n2[z as int]
            == n0[z as int] by {
            assert(!o1.contains(z));
            assert(n1[z as int] == n0[z as int]);
        }
    }
}

/// The links of a node lead to the top of what comes before it, on the left, to the top of what comes
/// behind it, on the right, and back up.
pub proof fn law_links_of_a_node(n: Seq<rb_node>, idx: usize, parent: usize, t: Tree)
    requires
        represents(n, idx, parent, t),
    ensures
        t is Leaf <==> idx == NIL,
        t is Node ==> {
            &&& idx < n.len()
            &&& n[idx as int].rb_parent == parent
            &&& n[idx as int].rb_left == top(*t->left)
            &&& n[idx as int].rb_right == top(*t->right)
            &&& inorder(t) == inorder(*t->left) + seq![idx] + inorder(*t->right)
        },
{
    if t is Node {
        let (l, r) = (*t->left, *t->right);
        assert(represents(n, n[idx as int].rb_left, idx, l));
        assert(represents(n, n[idx as int].rb_right, idx, r));
        assert(inorder(t) =~= inorder(l) + seq![idx] + inorder(r));
    }
}

/// The node behind another one in an order without duplicates.
pub proof fn law_next(o: Seq<usize>, i: int)
    requires
        o.no_duplicates(),
        0 <= i < o.len(),
    ensures
        i + 1 < o.len() ==> next_in(o, o[i]) == o[i + 1],
        i + 1 == o.len() ==> next_in(o, o[i]) == NIL,
{
    assert(o.contains(o[i]));
    assert(o.index_of(o[i]) == i);
}

} // verus!
