//! Queues of timers, ordered by expiration time.
//!
//! The first timer is known without a search. The tree that holds the timers is not balanced: adding a
//! timer, or removing one, can take as many steps as the queue is long, as it does where timers are
//! added in the order of their expiration.

use vstd::prelude::*;

use crate::rbtree::{rb_erase, rb_link_node, rb_next, rb_node, rb_root, RbNodes, NIL};
#[allow(unused_imports)]
use crate::rbtree::{
    after_path, before_path, below, inorder, is_tree, lemma_around_not_below, lemma_at,
    lemma_children, lemma_cut, lemma_inorder_contains, lemma_members, lemma_owner_around,
    lemma_path_of, lemma_step, outside_same, owner, path_of, represents, top, valid, Tree,
};

verus! {

/// A time, in nanoseconds.
#[allow(non_camel_case_types)]
pub type ktime_t = i64;

/// A tree and its first node.
#[allow(non_camel_case_types)]
pub struct rb_root_cached {
    rb_root: rb_root,
    rb_leftmost: usize,
}

/// A timer: its links in the tree and when it expires.
#[allow(non_camel_case_types)]
#[derive(Clone, Copy)]
pub struct timerqueue_node {
    node: rb_node,
    expires: ktime_t,
}

/// The timers that can be in a queue.
struct Timers {
    nodes: Vec<timerqueue_node>,
}

impl RbNodes for Timers {
    type Rest = Seq<ktime_t>;

    closed spec fn links(&self) -> Seq<rb_node> {
        Seq::new(self.nodes@.len(), |i: int| self.nodes@[i].node)
    }

    closed spec fn rest(&self) -> Seq<ktime_t> {
        Seq::new(self.nodes@.len(), |i: int| self.nodes@[i].expires)
    }

    fn get(&self, i: usize) -> (n: rb_node) {
        let _total: usize = self.nodes.len();
        self.nodes[i].node
    }

    fn set(&mut self, i: usize, n: rb_node) {
        let expires = self.nodes[i].expires;
        self.nodes.set(i, timerqueue_node { node: n, expires });
        assert(self.links() =~= old(self).links().update(i as int, n));
        assert(self.rest() =~= old(self).rest());
    }
}

/// Nodes that expire.
trait Expiring: RbNodes {
    /// When the nodes expire.
    spec fn times(&self) -> Seq<ktime_t>;

    /// When a node expires.
    fn expires_at(&self, i: usize) -> (e: ktime_t)
        requires
            i < self.links().len(),
        ensures
            e == self.times()[i as int],
    ;
}

impl Expiring for Timers {
    closed spec fn times(&self) -> Seq<ktime_t> {
        self.rest()
    }

    fn expires_at(&self, i: usize) -> (e: ktime_t) {
        self.nodes[i].expires
    }
}

/// A queue, and the timers that can be in it. A timer is named by its index.
#[allow(non_camel_case_types)]
pub struct timerqueue_head {
    rb_root: rb_root_cached,
    timers: Timers,
}

/// How many entries of the ascending sequence `es` are at most `e`.
pub open spec fn expiry_position(es: Seq<ktime_t>, e: ktime_t) -> int
    decreases es.len(),
{
    if es.len() == 0 {
        0
    } else if es.last() <= e {
        es.len() as int
    } else {
        expiry_position(es.drop_last(), e)
    }
}

/// When the timers of `order` expire.
pub open spec fn expiries(order: Seq<usize>, all: Seq<ktime_t>) -> Seq<ktime_t> {
    Seq::new(order.len(), |i: int| all[order[i] as int])
}

/// `order` with `node` behind the timers that do not expire later.
pub open spec fn enqueued(order: Seq<usize>, all: Seq<ktime_t>, node: usize) -> Seq<usize> {
    order.insert(expiry_position(expiries(order, all), all[node as int]), node)
}

/// Whether the timers of `order` expire one after the other.
pub open spec fn in_time(order: Seq<usize>, all: Seq<ktime_t>) -> bool {
    forall|i: int, j: int|
        0 <= i <= j < order.len() ==> all[#[trigger] order[i] as int]
            <= all[#[trigger] order[j] as int]
}

proof fn lemma_expiry_position(es: Seq<ktime_t>, e: ktime_t, pos: int)
    requires
        0 <= pos <= es.len(),
        forall|i: int| 0 <= i < pos ==> es[i] <= e,
        forall|i: int| pos <= i < es.len() ==> es[i] > e,
    ensures
        expiry_position(es, e) == pos,
    decreases es.len(),
{
    if es.len() > 0 && es.last() > e {
        lemma_expiry_position(es.drop_last(), e, pos);
    }
}

/// A timer that is added comes behind the timers that expire earlier or at the same time, and in front
/// of the others, and the queue stays in order.
pub proof fn law_enqueued_in_time(order: Seq<usize>, all: Seq<ktime_t>, node: usize)
    requires
        in_time(order, all),
    ensures
        ({
            let pos = expiry_position(expiries(order, all), all[node as int]);
            &&& 0 <= pos <= order.len()
            &&& forall|i: int| 0 <= i < pos ==> all[#[trigger] order[i] as int] <= all[node as int]
            &&& forall|i: int|
                pos <= i < order.len() ==> all[#[trigger] order[i] as int] > all[node as int]
        }),
        in_time(enqueued(order, all, node), all),
{
    let es = expiries(order, all);
    assert forall|i: int, j: int| 0 <= i <= j < es.len() implies es[i] <= es[j] by {
        assert(all[order[i] as int] <= all[order[j] as int]);
    }
    lemma_position_splits(es, all[node as int]);
    assert forall|i: int| 0 <= i < order.len() implies all[#[trigger] order[i] as int] == es[i] by {}
    let pos = expiry_position(es, all[node as int]);
    let t = enqueued(order, all, node);
    assert forall|i: int| 0 <= i < t.len() implies t[i] == (if i < pos {
        order[i]
    } else if i == pos {
        node
    } else {
        order[i - 1]
    }) by {}
}

proof fn lemma_position_splits(es: Seq<ktime_t>, e: ktime_t)
    requires
        forall|i: int, j: int| 0 <= i <= j < es.len() ==> es[i] <= es[j],
    ensures
        0 <= expiry_position(es, e) <= es.len(),
        forall|i: int| 0 <= i < expiry_position(es, e) ==> es[i] <= e,
        forall|i: int| expiry_position(es, e) <= i < es.len() ==> es[i] > e,
    decreases es.len(),
{
    if es.len() > 0 && es.last() > e {
        lemma_position_splits(es.drop_last(), e);
        assert forall|i: int| expiry_position(es, e) <= i < es.len() implies es[i] > e by {
            assert(i < es.len() - 1 ==> es.drop_last()[i] == es[i]);
        }
        assert forall|i: int| 0 <= i < expiry_position(es, e) implies es[i] <= e by {
            assert(es.drop_last()[i] == es[i]);
        }
    }
}

/// A node of a tree is not its own parent.
proof fn lemma_not_own_parent(n: Seq<rb_node>, root: rb_root, x: usize)
    requires
        is_tree(n, root),
        inorder(root.shape@).contains(x),
    ensures
        x < n.len(),
        n[x as int].rb_parent != x,
{
    let t = root.shape@;
    let path = path_of(t, x);
    lemma_path_of(t, x);
    lemma_at(n, root.rb_node, NIL, t, path);
    lemma_children(n, x, owner(NIL, t, path), below(t, path));
    lemma_members(n, root.rb_node, NIL, t, x);
    if path.len() > 0 {
        lemma_owner_around(NIL, t, path);
        lemma_around_not_below(t, path, owner(NIL, t, path));
        lemma_inorder_contains(below(t, path), x);
    }
}

/// Whether the nodes that are in no tree, and no others, are their own parents.
spec fn unqueued_marked(n: Seq<rb_node>, root: rb_root) -> bool {
    forall|x: usize|
        x < n.len() && !#[trigger] inorder(root.shape@).contains(x) ==> n[x as int].rb_parent == x
}

impl timerqueue_head {
    /// How many timers there are, in the queue or not.
    pub closed spec fn count(self) -> int {
        self.timers.nodes@.len() as int
    }

    /// When the timers expire.
    pub closed spec fn expires(self) -> Seq<ktime_t> {
        self.timers.rest()
    }

    /// The timers in the queue, in order.
    pub closed spec fn order(self) -> Seq<usize> {
        inorder(self.rb_root.rb_root.shape@)
    }

    /// Whether the tree is in order, its first node is known, and the timers that are not in it are
    /// marked.
    pub closed spec fn wf(self) -> bool {
        &&& self.timers.nodes@.len() < usize::MAX
        &&& is_tree(self.timers.links(), self.rb_root.rb_root)
        &&& in_time(self.order(), self.expires())
        &&& self.rb_root.rb_leftmost == (if self.order().len() > 0 {
            self.order()[0]
        } else {
            NIL
        })
        &&& unqueued_marked(self.timers.links(), self.rb_root.rb_root)
    }

    /// What a well-formed queue promises: its timers exist, are in it once, and are in order.
    pub proof fn lemma_wf(self)
        requires
            self.wf(),
        ensures
            self.order().no_duplicates(),
            forall|i: int| 0 <= i < self.order().len() ==> #[trigger] self.order()[i] < self.count(),
            in_time(self.order(), self.expires()),
            self.expires().len() == self.count(),
            self.count() < usize::MAX,
    {
        assert forall|i: int| 0 <= i < self.order().len() implies #[trigger] self.order()[i]
            < self.count() by {
            assert(self.order().contains(self.order()[i]));
            lemma_members(
                self.timers.links(),
                self.rb_root.rb_root.rb_node,
                NIL,
                self.rb_root.rb_root.shape@,
                self.order()[i],
            );
        }
    }

    /// Makes an empty queue for timers that expire at the given times.
    pub fn new(expires: &[ktime_t]) -> (head: timerqueue_head)
        requires
            expires@.len() < usize::MAX,
        ensures
            head.wf(),
            head.count() == expires@.len(),
            head.expires() == expires@,
            head.order() == Seq::<usize>::empty(),
    {
        let mut nodes: Vec<timerqueue_node> = Vec::new();
        let mut i: usize = 0;
        while i < expires.len()
            invariant
                i <= expires@.len(),
                nodes@.len() == i,
                forall|k: int|
                    0 <= k < i ==> (#[trigger] nodes@[k]).expires == expires@[k]
                        && nodes@[k].node.rb_parent == k,
            decreases expires@.len() - i,
        {
            nodes.push(
                timerqueue_node {
                    node: rb_node { rb_parent: i, rb_right: NIL, rb_left: NIL },
                    expires: expires[i],
                },
            );
            i = i + 1;
        }
        let head = timerqueue_head {
            rb_root: rb_root_cached {
                rb_root: rb_root { rb_node: NIL, shape: Ghost(Tree::Leaf) },
                rb_leftmost: NIL,
            },
            timers: Timers { nodes },
        };
        proof {
            assert(head.expires() =~= expires@);
            assert(head.order() =~= Seq::empty());
        }
        head
    }

    /// Whether a timer is in the queue.
    pub fn is_queued(&self, node: usize) -> (queued: bool)
        requires
            self.wf(),
            node < self.count(),
        ensures
            queued == self.order().contains(node),
    {
        proof {
            if self.order().contains(node) {
                lemma_not_own_parent(self.timers.links(), self.rb_root.rb_root, node);
            }
        }
        self.timers.get(node).rb_parent != node
    }

    /// Sets when a timer expires that is not in the queue.
    pub fn set_expires(&mut self, node: usize, expires: ktime_t)
        requires
            old(self).wf(),
            node < old(self).count(),
            !old(self).order().contains(node),
        ensures
            final(self).wf(),
            final(self).count() == old(self).count(),
            final(self).order() == old(self).order(),
            final(self).expires() == old(self).expires().update(node as int, expires),
    {
        let mut timer: timerqueue_node = self.timers.nodes[node];
        timer.expires = expires;
        self.timers.nodes.set(node, timer);
        proof {
            old(self).lemma_wf();
            assert(self.timers.links() =~= old(self).timers.links());
            assert(self.expires() =~= old(self).expires().update(node as int, expires));
            assert forall|i: int| 0 <= i < self.order().len() implies #[trigger] self.order()[i]
                != node by {
                assert(self.order().contains(self.order()[i]));
            }
        }
    }

    /// The timer that expires first, if there is one.
    pub fn first(&self) -> (node: Option<usize>)
        requires
            self.wf(),
        ensures
            node == (if self.order().len() > 0 {
                Some(self.order()[0])
            } else {
                None
            }),
    {
        proof {
            self.lemma_wf();
        }
        if self.rb_root.rb_leftmost == NIL {
            None
        } else {
            Some(self.rb_root.rb_leftmost)
        }
    }
}

/// A place in a tree: below `parent`, on its left or not.
struct Place {
    parent: usize,
    go_left: bool,
    leftmost: bool,
    path: Ghost<Seq<bool>>,
}

/// Whether `path` ends at the place of a node that expires at `expires`.
spec fn is_place(t: Tree, path: Seq<bool>, all: Seq<ktime_t>, expires: ktime_t) -> bool {
    &&& valid(t, path)
    &&& forall|i: int|
        0 <= i < before_path(t, path).len() ==> all[#[trigger] before_path(t, path)[i] as int]
            <= expires
    &&& forall|i: int|
        0 <= i < after_path(t, path).len() ==> all[#[trigger] after_path(t, path)[i] as int]
            > expires
}

/// Descends to the place of a node that expires at `expires`.
fn find_place<P: Expiring>(pool: &P, root: &rb_root, expires: ktime_t) -> (r: Place)
    requires
        is_tree(pool.links(), *root),
        in_time(inorder(root.shape@), pool.times()),
    ensures
        is_place(root.shape@, r.path@, pool.times(), expires),
        below(root.shape@, r.path@) is Leaf,
        r.parent == owner(NIL, root.shape@, r.path@),
        r.path@.len() > 0 ==> r.go_left == r.path@.last(),
        r.leftmost == (before_path(root.shape@, r.path@).len() == 0),
        r.parent == NIL <==> r.path@.len() == 0,
        r.path@.len() > 0 ==> r.parent < pool.links().len(),
        r.path@.len() > 0 && r.go_left ==> {
            let a = after_path(root.shape@, r.path@);
            a.len() > 0 && a[0] == r.parent
        },
        r.path@.len() > 0 && !r.go_left ==> {
            let b = before_path(root.shape@, r.path@);
            b.len() > 0 && b.last() == r.parent
        },
{
    let ghost t = root.shape@;
    let ghost n = pool.links();
    let ghost all = pool.times();
    let mut cur: usize = root.rb_node;
    let mut parent: usize = NIL;
    let mut go_left = false;
    let mut leftmost = true;
    let ghost mut path: Seq<bool> = Seq::empty();
    proof {
        lemma_children(n, cur, NIL, t);
        assert(before_path(t, path) =~= Seq::empty());
        assert(after_path(t, path) =~= Seq::empty());
    }
    while cur != NIL
        invariant
            t == root.shape@,
            n == pool.links(),
            all == pool.times(),
            is_tree(n, *root),
            in_time(inorder(t), all),
            is_place(t, path, all, expires),
            cur == top(below(t, path)),
            represents(n, cur, owner(NIL, t, path), below(t, path)),
            parent == owner(NIL, t, path),
            path.len() > 0 ==> go_left == path.last(),
            leftmost == (before_path(t, path).len() == 0),
            parent == NIL <==> path.len() == 0,
            path.len() > 0 ==> parent < n.len(),
            path.len() > 0 && go_left ==> after_path(t, path).len() > 0 && after_path(t, path)[0]
                == parent,
            path.len() > 0 && !go_left ==> before_path(t, path).len() > 0 && before_path(
                t,
                path,
            ).last() == parent,
        decreases below(t, path),
    {
        let ghost s = below(t, path);
        proof {
            lemma_children(n, cur, owner(NIL, t, path), s);
            lemma_step(t, path, true, NIL);
            lemma_step(t, path, false, NIL);
            lemma_cut(t, path, Tree::Leaf);
            lemma_around_cur(t, path, all);
        }
        parent = cur;
        let here = pool.get(parent);
        if expires < pool.expires_at(parent) {
            cur = here.rb_left;
            go_left = true;
            proof {
                let p = path.push(true);
                lemma_at(n, root.rb_node, NIL, t, p);
                let r = inorder(*s->right);
                assert forall|i: int| 0 <= i < after_path(t, p).len() implies all[#[trigger] after_path(
                    t,
                    p,
                )[i] as int] > expires by {
                    if 0 < i <= r.len() {
                        assert(after_path(t, p)[i] == r[i - 1]);
                    } else if i > r.len() {
                        assert(after_path(t, p)[i] == after_path(t, path)[i - 1 - r.len()]);
                    }
                }
                path = p;
            }
        } else {
            cur = here.rb_right;
            go_left = false;
            leftmost = false;
            proof {
                let p = path.push(false);
                lemma_at(n, root.rb_node, NIL, t, p);
                let l = inorder(*s->left);
                let b = before_path(t, path);
                assert forall|i: int| 0 <= i < before_path(t, p).len() implies all[#[trigger] before_path(
                    t,
                    p,
                )[i] as int] <= expires by {
                    if i < b.len() {
                        assert(before_path(t, p)[i] == b[i]);
                    } else if i < b.len() + l.len() {
                        assert(before_path(t, p)[i] == l[i - b.len()]);
                    }
                }
                path = p;
            }
        }
    }
    proof {
        lemma_children(n, cur, owner(NIL, t, path), below(t, path));
    }
    Place { parent, go_left, leftmost, path: Ghost(path) }
}

/// The place of a node in the tree is its place in the order.
proof fn lemma_place(t: Tree, path: Seq<bool>, all: Seq<ktime_t>, node: usize)
    requires
        is_place(t, path, all, all[node as int]),
        below(t, path) is Leaf,
        in_time(inorder(t), all),
    ensures
        ({
            let b = before_path(t, path);
            let a = after_path(t, path);
            &&& inorder(t) == b + a
            &&& enqueued(inorder(t), all, node) == b.push(node) + a
            &&& in_time(b.push(node) + a, all)
        }),
{
    let b = before_path(t, path);
    let a = after_path(t, path);
    let order = inorder(t);
    let expires = all[node as int];
    lemma_cut(t, path, Tree::Leaf);
    assert(inorder(Tree::Leaf) =~= Seq::empty());
    assert(order =~= b + a);
    let es = expiries(order, all);
    assert forall|i: int| 0 <= i < es.len() implies (i < b.len() ==> es[i] <= expires) && (i
        >= b.len() ==> es[i] > expires) by {
        if i < b.len() {
            assert(order[i] == b[i]);
        } else {
            assert(order[i] == a[i - b.len()]);
        }
    }
    lemma_expiry_position(es, expires, b.len() as int);
    law_enqueued_in_time(order, all, node);
    assert(enqueued(order, all, node) =~= b.push(node) + a);
}

/// The nodes that are not in the tree stay marked when one comes in.
proof fn lemma_still_marked(n: Seq<rb_node>, n2: Seq<rb_node>, t: Tree, root: rb_root, path: Seq<bool>, node: usize)
    requires
        forall|x: usize|
            x < n.len() && !#[trigger] inorder(t).contains(x) ==> n[x as int].rb_parent == x,
        outside_same(n, n2, t, node),
        inorder(t) == before_path(t, path) + after_path(t, path),
        inorder(root.shape@) == before_path(t, path).push(node) + after_path(t, path),
    ensures
        unqueued_marked(n2, root),
        forall|x: usize|
            inorder(root.shape@).contains(x) == (x == node || #[trigger] inorder(t).contains(x)),
{
    let b = before_path(t, path);
    let o2 = inorder(root.shape@);
    let order = inorder(t);
    assert(o2[b.len() as int] == node);
    assert forall|x: usize| o2.contains(x) == (x == node || #[trigger] order.contains(x)) by {
        if order.contains(x) {
            let i = order.index_of(x);
            assert(o2[if i < b.len() {
                i
            } else {
                i + 1
            }] == x);
        }
        if o2.contains(x) && x != node {
            let i = o2.index_of(x);
            assert(order[if i < b.len() {
                i
            } else {
                i - 1
            }] == x);
        }
    }
    assert forall|x: usize| x < n2.len() && !#[trigger] o2.contains(x) implies n2[x as int].rb_parent
        == x by {
        assert(!order.contains(x));
    }
}

/// Adds a timer to the queue, sorted by its expiration time. Returns whether it is the first to expire.
pub fn timerqueue_add(head: &mut timerqueue_head, node: usize) -> (leftmost: bool)
    requires
        old(head).wf(),
        node < old(head).count(),
        !old(head).order().contains(node),
    ensures
        final(head).wf(),
        final(head).count() == old(head).count(),
        final(head).expires() == old(head).expires(),
        final(head).order() == enqueued(old(head).order(), old(head).expires(), node),
        leftmost == (final(head).order()[0] == node),
{
    let expires = head.timers.expires_at(node);
    let ghost t = head.rb_root.rb_root.shape@;
    let ghost n = head.timers.links();
    let ghost all = head.timers.rest();
    let ghost order = head.order();
    let place = find_place(&head.timers, &head.rb_root.rb_root, expires);
    let ghost path = place.path@;
    let ghost b = before_path(t, path);
    proof {
        lemma_place(t, path, all, node);
    }
    rb_link_node(
        &mut head.timers,
        &mut head.rb_root.rb_root,
        node,
        place.parent,
        place.go_left,
        place.path,
    );
    if place.leftmost {
        head.rb_root.rb_leftmost = node;
    }
    proof {
        lemma_still_marked(n, head.timers.links(), t, head.rb_root.rb_root, path, node);
        let o2 = head.order();
        if b.len() > 0 {
            assert(o2[0] == b[0] && order[0] == b[0]);
            assert(order.contains(b[0]));
        }
    }
    place.leftmost
}

/// What the order says of the nodes on both sides of a node.
proof fn lemma_around_cur(t: Tree, path: Seq<bool>, all: Seq<ktime_t>)
    requires
        valid(t, path),
        below(t, path) is Node,
        in_time(inorder(t), all),
    ensures
        ({
            let s = below(t, path);
            &&& forall|i: int|
                0 <= i < inorder(*s->left).len() ==> all[#[trigger] inorder(*s->left)[i] as int]
                    <= all[s->node as int]
            &&& forall|i: int|
                0 <= i < inorder(*s->right).len() ==> all[#[trigger] inorder(*s->right)[i] as int]
                    >= all[s->node as int]
        }),
{
    lemma_cut(t, path, Tree::Leaf);
    let s = below(t, path);
    let b = before_path(t, path);
    let l = inorder(*s->left);
    let r = inorder(*s->right);
    let o = inorder(t);
    assert(o == b + (l.push(s->node) + r) + after_path(t, path));
    let k: int = b.len() + l.len() as int;
    assert(o[k] == s->node);
    assert forall|i: int| 0 <= i < l.len() implies all[#[trigger] l[i] as int]
        <= all[s->node as int] by {
        assert(o[b.len() + i] == l[i]);
    }
    assert forall|i: int| 0 <= i < r.len() implies all[#[trigger] r[i] as int]
        >= all[s->node as int] by {
        assert(o[k + 1 + i] == r[i]);
    }
}

/// Removes a timer from the queue. Returns whether the queue is not empty afterwards.
pub fn timerqueue_del(head: &mut timerqueue_head, node: usize) -> (more: bool)
    requires
        old(head).wf(),
        old(head).order().contains(node),
    ensures
        final(head).wf(),
        final(head).count() == old(head).count(),
        final(head).expires() == old(head).expires(),
        final(head).order() == old(head).order().remove(old(head).order().index_of(node)),
        more == (final(head).order().len() > 0),
{
    let ghost t = head.rb_root.rb_root.shape@;
    let ghost n = head.timers.links();
    let ghost order = head.order();
    let ghost i = order.index_of(node);
    proof {
        head.lemma_wf();
        assert(order[i] < head.count());
    }
    // The first one moves on before the node is erased.
    if head.rb_root.rb_leftmost == node {
        head.rb_root.rb_leftmost = rb_next(&head.timers, &head.rb_root.rb_root, node);
        assert(i == 0);
    }
    rb_erase(&mut head.timers, &mut head.rb_root.rb_root, node);
    let ghost o2 = inorder(head.rb_root.rb_root.shape@);
    let ghost n1 = head.timers.links();
    proof {
        assert(o2 == order.remove(i));
        assert forall|x: usize| o2.contains(x) implies order.contains(x) && x != node by {
            let j = o2.index_of(x);
            let k = if j < i {
                j
            } else {
                j + 1
            };
            assert(order[k] == x);
        }
    }
    let mut m = head.timers.get(node);
    m.rb_parent = node;
    head.timers.set(node, m);
    proof {
        let n2 = head.timers.links();
        let root = head.rb_root.rb_root;
        assert forall|x: usize| inorder(root.shape@).contains(x) implies #[trigger] n2[x as int]
            == n1[x as int] by {}
        crate::rbtree::lemma_frame(n1, n2, root.rb_node, NIL, root.shape@);
        lemma_children(n2, root.rb_node, NIL, root.shape@);
        assert forall|x: usize| x < n2.len() && !#[trigger] o2.contains(x) implies n2[x as int].rb_parent
            == x by {
            if x != node {
                if order.contains(x) {
                    let k = order.index_of(x);
                    assert(o2[if k < i {
                        k
                    } else {
                        k - 1
                    }] == x);
                }
                assert(n1[x as int] == n[x as int]);
            }
        }
        let all = head.timers.rest();
        assert forall|a: int, b: int| 0 <= a <= b < o2.len() implies all[#[trigger] o2[a] as int]
            <= all[#[trigger] o2[b] as int] by {
            let a1 = if a < i {
                a
            } else {
                a + 1
            };
            let b1 = if b < i {
                b
            } else {
                b + 1
            };
            assert(all[order[a1] as int] <= all[order[b1] as int]);
        }
    }
    head.rb_root.rb_root.rb_node != NIL
}

/// Returns the timer after the given one, to iterate through the queue without modifying it.
pub fn timerqueue_iterate_next(head: &timerqueue_head, node: Option<usize>) -> (next: Option<usize>)
    requires
        head.wf(),
        node matches Some(x) ==> head.order().contains(x),
    ensures
        next == (match node {
            None => None,
            Some(x) => {
                let i = head.order().index_of(x);
                if i + 1 < head.order().len() {
                    Some(head.order()[i + 1])
                } else {
                    None
                }
            },
        }),
{
    match node {
        None => None,
        Some(x) => {
            let y = rb_next(&head.timers, &head.rb_root.rb_root, x);
            proof {
                head.lemma_wf();
            }
            if y == NIL {
                None
            } else {
                Some(y)
            }
        },
    }
}

/// Deleting a timer that was added gives the queue back as it was.
pub proof fn law_del_undoes_add(order: Seq<usize>, all: Seq<ktime_t>, node: usize)
    requires
        in_time(order, all),
        order.no_duplicates(),
        !order.contains(node),
    ensures
        ({
            let added = enqueued(order, all, node);
            added.remove(added.index_of(node)) == order
        }),
{
    law_enqueued_in_time(order, all, node);
    let pos = expiry_position(expiries(order, all), all[node as int]);
    let added = enqueued(order, all, node);
    assert(added[pos] == node);
    assert forall|k: int| 0 <= k < added.len() && added[k] == node implies k == pos by {
        if k < pos {
            assert(order[k] == node);
        } else if k > pos {
            assert(order[k - 1] == node);
        }
    }
    assert(added.remove(pos) =~= order);
}

/// The links of a node that also knows its neighbours in the order.
#[allow(non_camel_case_types)]
#[derive(Clone, Copy)]
pub struct rb_node_linked {
    node: rb_node,
    prev: usize,
    next: usize,
}

/// A tree of such nodes and its first node.
#[allow(non_camel_case_types)]
pub struct rb_root_linked {
    rb_root: rb_root,
    rb_leftmost: usize,
}

/// A timer that knows its neighbours.
#[allow(non_camel_case_types)]
#[derive(Clone, Copy)]
pub struct timerqueue_linked_node {
    node: rb_node_linked,
    expires: ktime_t,
}

/// The neighbours of a timer.
pub ghost struct Neighbours {
    pub prev: usize,
    pub next: usize,
}

/// What belongs to the timers besides their links in the tree.
pub ghost struct LinkedRest {
    pub expires: Seq<ktime_t>,
    pub threads: Seq<Neighbours>,
}

struct LinkedTimers {
    nodes: Vec<timerqueue_linked_node>,
}

impl LinkedTimers {
    spec fn all_times(&self) -> Seq<ktime_t> {
        Seq::new(self.nodes@.len(), |i: int| self.nodes@[i].expires)
    }

    spec fn threads(&self) -> Seq<Neighbours> {
        Seq::new(
            self.nodes@.len(),
            |i: int|
                Neighbours { prev: self.nodes@[i].node.prev, next: self.nodes@[i].node.next },
        )
    }

    fn prev(&self, i: usize) -> (p: usize)
        requires
            i < self.nodes@.len(),
        ensures
            p == self.threads()[i as int].prev,
    {
        self.nodes[i].node.prev
    }

    fn next(&self, i: usize) -> (p: usize)
        requires
            i < self.nodes@.len(),
        ensures
            p == self.threads()[i as int].next,
    {
        self.nodes[i].node.next
    }

    fn set_neighbours(&mut self, i: usize, prev: usize, next: usize)
        requires
            i < old(self).nodes@.len(),
        ensures
            final(self).links() == old(self).links(),
            final(self).times() == old(self).times(),
            final(self).nodes@.len() == old(self).nodes@.len(),
            final(self).threads() == old(self).threads().update(
                i as int,
                Neighbours { prev, next },
            ),
    {
        let m = self.nodes[i];
        self.nodes.set(
            i,
            timerqueue_linked_node {
                node: rb_node_linked { node: m.node.node, prev, next },
                expires: m.expires,
            },
        );
        assert(self.links() =~= old(self).links());
        assert(self.all_times() =~= old(self).all_times());
        assert(self.threads() =~= old(self).threads().update(i as int, Neighbours { prev, next }));
    }
}

impl RbNodes for LinkedTimers {
    type Rest = LinkedRest;

    closed spec fn links(&self) -> Seq<rb_node> {
        Seq::new(self.nodes@.len(), |i: int| self.nodes@[i].node.node)
    }

    closed spec fn rest(&self) -> LinkedRest {
        LinkedRest { expires: self.all_times(), threads: self.threads() }
    }

    fn get(&self, i: usize) -> (n: rb_node) {
        let _total: usize = self.nodes.len();
        self.nodes[i].node.node
    }

    fn set(&mut self, i: usize, n: rb_node) {
        let m = self.nodes[i];
        self.nodes.set(
            i,
            timerqueue_linked_node {
                node: rb_node_linked { node: n, prev: m.node.prev, next: m.node.next },
                expires: m.expires,
            },
        );
        assert(self.links() =~= old(self).links().update(i as int, n));
        assert(self.all_times() =~= old(self).all_times());
        assert(self.threads() =~= old(self).threads());
    }
}

impl Expiring for LinkedTimers {
    closed spec fn times(&self) -> Seq<ktime_t> {
        self.all_times()
    }

    fn expires_at(&self, i: usize) -> (e: ktime_t) {
        self.nodes[i].expires
    }
}

/// A queue whose timers know their neighbours, and the timers that can be in it.
#[allow(non_camel_case_types)]
pub struct timerqueue_linked_head {
    rb_root: rb_root_linked,
    timers: LinkedTimers,
}

/// The neighbours of entry `i` of `order`.
spec fn neighbours(order: Seq<usize>, i: int) -> Neighbours {
    Neighbours {
        prev: if i > 0 {
            order[i - 1]
        } else {
            NIL
        },
        next: if i + 1 < order.len() {
            order[i + 1]
        } else {
            NIL
        },
    }
}

/// Whether the timers of `order` know their neighbours, and the others have none.
#[verifier::opaque]
spec fn threaded(order: Seq<usize>, threads: Seq<Neighbours>) -> bool {
    &&& forall|i: int|
        0 <= i < order.len() ==> threads[#[trigger] order[i] as int] == neighbours(order, i)
    &&& forall|x: usize|
        x < threads.len() && !#[trigger] order.contains(x) ==> threads[x as int] == (Neighbours {
            prev: NIL,
            next: NIL,
        })
}

impl timerqueue_linked_head {
    /// How many timers there are, in the queue or not.
    pub closed spec fn count(self) -> int {
        self.timers.nodes@.len() as int
    }

    /// When the timers expire.
    pub closed spec fn expires(self) -> Seq<ktime_t> {
        self.timers.times()
    }

    /// The timers in the queue, in order.
    pub closed spec fn order(self) -> Seq<usize> {
        inorder(self.rb_root.rb_root.shape@)
    }

    /// Whether the tree is in order, its first node is known, the timers know their neighbours, and
    /// those that are not in it are marked.
    pub closed spec fn wf(self) -> bool {
        &&& self.timers.nodes@.len() < usize::MAX
        &&& is_tree(self.timers.links(), self.rb_root.rb_root)
        &&& in_time(self.order(), self.expires())
        &&& self.rb_root.rb_leftmost == (if self.order().len() > 0 {
            self.order()[0]
        } else {
            NIL
        })
        &&& unqueued_marked(self.timers.links(), self.rb_root.rb_root)
        &&& threaded(self.order(), self.timers.threads())
    }

    /// What a well-formed queue promises: its timers exist, are in it once, and are in order.
    pub proof fn lemma_wf(self)
        requires
            self.wf(),
        ensures
            self.order().no_duplicates(),
            forall|i: int| 0 <= i < self.order().len() ==> #[trigger] self.order()[i] < self.count(),
            in_time(self.order(), self.expires()),
            self.expires().len() == self.count(),
            self.count() < usize::MAX,
    {
        assert forall|i: int| 0 <= i < self.order().len() implies #[trigger] self.order()[i]
            < self.count() by {
            assert(self.order().contains(self.order()[i]));
            lemma_members(
                self.timers.links(),
                self.rb_root.rb_root.rb_node,
                NIL,
                self.rb_root.rb_root.shape@,
                self.order()[i],
            );
        }
    }

    /// Makes an empty queue for timers that expire at the given times.
    pub fn new(expires: &[ktime_t]) -> (head: timerqueue_linked_head)
        requires
            expires@.len() < usize::MAX,
        ensures
            head.wf(),
            head.count() == expires@.len(),
            head.expires() == expires@,
            head.order() == Seq::<usize>::empty(),
    {
        let mut nodes: Vec<timerqueue_linked_node> = Vec::new();
        let mut i: usize = 0;
        while i < expires.len()
            invariant
                i <= expires@.len(),
                nodes@.len() == i,
                forall|k: int|
                    0 <= k < i ==> (#[trigger] nodes@[k]).expires == expires@[k]
                        && nodes@[k].node.node.rb_parent == k && nodes@[k].node.prev == NIL
                        && nodes@[k].node.next == NIL,
            decreases expires@.len() - i,
        {
            nodes.push(
                timerqueue_linked_node {
                    node: rb_node_linked {
                        node: rb_node { rb_parent: i, rb_right: NIL, rb_left: NIL },
                        prev: NIL,
                        next: NIL,
                    },
                    expires: expires[i],
                },
            );
            i = i + 1;
        }
        let head = timerqueue_linked_head {
            rb_root: rb_root_linked {
                rb_root: rb_root { rb_node: NIL, shape: Ghost(Tree::Leaf) },
                rb_leftmost: NIL,
            },
            timers: LinkedTimers { nodes },
        };
        proof {
            reveal(threaded);
            assert(head.expires() =~= expires@);
            assert(head.order() =~= Seq::empty());
        }
        head
    }

    /// Sets when a timer expires that is not in the queue.
    pub fn set_expires(&mut self, node: usize, expires: ktime_t)
        requires
            old(self).wf(),
            node < old(self).count(),
            !old(self).order().contains(node),
        ensures
            final(self).wf(),
            final(self).count() == old(self).count(),
            final(self).order() == old(self).order(),
            final(self).expires() == old(self).expires().update(node as int, expires),
    {
        let mut timer: timerqueue_linked_node = self.timers.nodes[node];
        timer.expires = expires;
        self.timers.nodes.set(node, timer);
        proof {
            old(self).lemma_wf();
            assert(self.timers.links() =~= old(self).timers.links());
            assert(self.expires() =~= old(self).expires().update(node as int, expires));
            assert(self.timers.threads() =~= old(self).timers.threads());
            assert forall|i: int| 0 <= i < self.order().len() implies #[trigger] self.order()[i]
                != node by {
                assert(self.order().contains(self.order()[i]));
            }
        }
    }

    /// The timer that expires first, if there is one.
    pub fn first(&self) -> (node: Option<usize>)
        requires
            self.wf(),
        ensures
            node == (if self.order().len() > 0 {
                Some(self.order()[0])
            } else {
                None
            }),
    {
        proof {
            self.lemma_wf();
        }
        if self.rb_root.rb_leftmost == NIL {
            None
        } else {
            Some(self.rb_root.rb_leftmost)
        }
    }

    /// The timer after the given one, if there is one.
    pub fn next(&self, node: usize) -> (next: Option<usize>)
        requires
            self.wf(),
            self.order().contains(node),
        ensures
            ({
                let i = self.order().index_of(node);
                next == (if i + 1 < self.order().len() {
                    Some(self.order()[i + 1])
                } else {
                    None
                })
            }),
    {
        proof {
            self.lemma_wf();
            let i = self.order().index_of(node);
            reveal(threaded);
            assert(self.timers.threads()[self.order()[i] as int] == neighbours(self.order(), i));
        }
        let next = self.timers.next(node);
        if next == NIL {
            None
        } else {
            Some(next)
        }
    }

    /// The timer before the given one, if there is one.
    pub fn prev(&self, node: usize) -> (prev: Option<usize>)
        requires
            self.wf(),
            self.order().contains(node),
        ensures
            ({
                let i = self.order().index_of(node);
                prev == (if i > 0 {
                    Some(self.order()[i - 1])
                } else {
                    None
                })
            }),
    {
        proof {
            self.lemma_wf();
            let i = self.order().index_of(node);
            reveal(threaded);
            assert(self.timers.threads()[self.order()[i] as int] == neighbours(self.order(), i));
        }
        let prev = self.timers.prev(node);
        if prev == NIL {
            None
        } else {
            Some(prev)
        }
    }
}

/// Puts a timer between its neighbours, next to `parent`.
fn thread_in(
    timers: &mut LinkedTimers,
    node: usize,
    parent: usize,
    go_left: bool,
    Ghost(order): Ghost<Seq<usize>>,
    Ghost(k): Ghost<int>,
)
    requires
        threaded(order, old(timers).threads()),
        order.no_duplicates(),
        forall|i: int| 0 <= i < order.len() ==> #[trigger] order[i] < old(timers).nodes@.len(),
        old(timers).nodes@.len() < usize::MAX,
        !order.contains(node),
        node < old(timers).nodes@.len(),
        0 <= k <= order.len(),
        parent == NIL ==> order.len() == 0,
        parent != NIL && go_left ==> k < order.len() && order[k] == parent,
        parent != NIL && !go_left ==> k > 0 && order[k - 1] == parent,
    ensures
        final(timers).links() == old(timers).links(),
        final(timers).times() == old(timers).times(),
        final(timers).nodes@.len() == old(timers).nodes@.len(),
        threaded(order.insert(k, node), final(timers).threads()),
{
    let ghost threads = timers.threads();
    proof {
        reveal(threaded);
        if k < order.len() {
            assert(threads[order[k] as int] == neighbours(order, k));
            assert(order.contains(order[k]));
        }
        if k > 0 {
            assert(threads[order[k - 1] as int] == neighbours(order, k - 1));
            assert(order.contains(order[k - 1]));
        }
        assert(threads[node as int] == (Neighbours { prev: NIL, next: NIL }));
    }
    if parent != NIL {
        if go_left {
            let prev = timers.prev(parent);
            let after = timers.next(parent);
            timers.set_neighbours(node, prev, parent);
            timers.set_neighbours(parent, node, after);
            if prev != NIL {
                let before = timers.prev(prev);
                timers.set_neighbours(prev, before, node);
            }
        } else {
            let next = timers.next(parent);
            let before = timers.prev(parent);
            timers.set_neighbours(node, parent, next);
            timers.set_neighbours(parent, before, node);
            if next != NIL {
                let after = timers.next(next);
                timers.set_neighbours(next, node, after);
            }
        }
    }
    proof {
        lemma_threaded(order, threads, k, node, timers.threads());
    }
}

/// Adds a timer to a queue whose timers know their neighbours. Returns whether it is the first to
/// expire.
#[verifier::spinoff_prover]
pub fn timerqueue_linked_add(head: &mut timerqueue_linked_head, node: usize) -> (leftmost: bool)
    requires
        old(head).wf(),
        node < old(head).count(),
        !old(head).order().contains(node),
    ensures
        final(head).wf(),
        final(head).count() == old(head).count(),
        final(head).expires() == old(head).expires(),
        final(head).order() == enqueued(old(head).order(), old(head).expires(), node),
        leftmost == (final(head).order()[0] == node),
{
    let expires = head.timers.expires_at(node);
    let ghost t = head.rb_root.rb_root.shape@;
    let ghost n = head.timers.links();
    let ghost all = head.timers.times();
    let ghost order = head.order();
    let place = find_place(&head.timers, &head.rb_root.rb_root, expires);
    let parent = place.parent;
    let ghost path = place.path@;
    let ghost b = before_path(t, path);
    let ghost a = after_path(t, path);
    let ghost k = b.len() as int;
    proof {
        head.lemma_wf();
        lemma_place(t, path, all, node);
        if path.len() == 0 {
            assert(b =~= Seq::empty());
            assert(a =~= Seq::empty());
        } else if place.go_left {
            assert(order[k] == parent);
        } else {
            assert(order[k - 1] == parent);
        }
    }
    thread_in(&mut head.timers, node, parent, place.go_left, Ghost(order), Ghost(k));
    let ghost threads2 = head.timers.threads();
    let ghost o2 = b.push(node) + a;
    proof {
        assert(o2 =~= order.insert(k, node));
    }
    rb_link_node(
        &mut head.timers,
        &mut head.rb_root.rb_root,
        node,
        parent,
        place.go_left,
        place.path,
    );
    proof {
        assert(head.timers.rest().threads == threads2);
        assert(head.timers.rest().expires == all);
        lemma_still_marked(n, head.timers.links(), t, head.rb_root.rb_root, path, node);
        assert(o2[k] == node);
        assert(threads2[node as int] == neighbours(o2, k)) by {
            reveal(threaded);
            assert(threads2[o2[k] as int] == neighbours(o2, k));
        }
        if k > 0 {
            assert(o2[0] == order[0]);
            assert(order.contains(order[0]));
            assert(o2[k - 1] == order[k - 1]);
        }
    }
    let first = head.timers.prev(node) == NIL;
    if first {
        head.rb_root.rb_leftmost = node;
    }
    first
}

/// The neighbours after a timer has come in at `k`.
#[verifier::spinoff_prover]
proof fn lemma_threaded(order: Seq<usize>, threads: Seq<Neighbours>, k: int, node: usize, threads2: Seq<Neighbours>)
    requires
        threaded(order, threads),
        order.no_duplicates(),
        forall|i: int| 0 <= i < order.len() ==> #[trigger] order[i] < threads.len(),
        !order.contains(node),
        node < threads.len(),
        0 <= k <= order.len(),
        threads2.len() == threads.len(),
        threads2[node as int] == neighbours(order.insert(k, node), k),
        forall|x: usize|
            x < threads.len() && x != node ==> #[trigger] threads2[x as int] == (Neighbours {
                prev: if k < order.len() && x == order[k] {
                    node
                } else {
                    threads[x as int].prev
                },
                next: if k > 0 && x == order[k - 1] {
                    node
                } else {
                    threads[x as int].next
                },
            }),
    ensures
        threaded(order.insert(k, node), threads2),
{
    reveal(threaded);
    let o2 = order.insert(k, node);
    assert forall|i: int| 0 <= i < o2.len() implies threads2[#[trigger] o2[i] as int] == neighbours(
        o2,
        i,
    ) by {
        if i != k {
            let j = if i < k {
                i
            } else {
                i - 1
            };
            assert(o2[i] == order[j]);
            assert(order.contains(order[j]));
            assert(threads[order[j] as int] == neighbours(order, j));
        }
    }
    assert forall|x: usize| x < threads2.len() && !#[trigger] o2.contains(x) implies threads2[x as int]
        == (Neighbours { prev: NIL, next: NIL }) by {
        assert(o2[k] == node);
        if order.contains(x) {
            let j = order.index_of(x);
            assert(o2[if j < k {
                j
            } else {
                j + 1
            }] == x);
        }
        assert(k < order.len() ==> order.contains(order[k]));
        assert(k > 0 ==> order.contains(order[k - 1]));
    }
}

/// The timers of a queue to which one is added keep their order, and the new one stands behind all
/// timers that expire earlier or at the same time, and before all that expire later.
pub proof fn law_added_timer_waits_its_turn(order: Seq<usize>, all: Seq<ktime_t>, node: usize, i: int)
    requires
        in_time(order, all),
        order.no_duplicates(),
        !order.contains(node),
        0 <= i <= order.len(),
    ensures
        ({
            let t = enqueued(order, all, node);
            let pos = t.index_of(node);
            &&& t.len() == order.len() + 1
            &&& 0 <= pos < t.len()
            &&& t[pos] == node
            &&& t.remove(pos) == order
            &&& i < pos ==> all[t[i] as int] <= all[node as int]
            &&& i > pos ==> all[t[i] as int] > all[node as int]
        }),
{
    law_enqueued_in_time(order, all, node);
    law_del_undoes_add(order, all, node);
    let pos = expiry_position(expiries(order, all), all[node as int]);
    let t = enqueued(order, all, node);
    assert(t[pos] == node);
    assert forall|k: int| 0 <= k < t.len() && t[k] == node implies k == pos by {
        if k < pos {
            assert(order[k] == node);
        } else if k > pos {
            assert(order[k - 1] == node);
        }
    }
    assert(t.contains(node));
    assert(t.index_of(node) == pos);
    if i < pos {
        assert(t[i] == order[i]);
    } else if i > pos {
        assert(t[i] == order[i - 1]);
    }
}

/// Timers that are added one after the other and expire at the same time come out in the order in which
/// they were added.
#[verifier::spinoff_prover]
#[verifier::rlimit(40)]
pub proof fn law_equal_times_keep_their_order(order: Seq<usize>, all: Seq<ktime_t>, a: usize, b: usize)
    requires
        in_time(order, all),
        order.no_duplicates(),
        !order.contains(a),
        !order.contains(b),
        a != b,
        all[a as int] <= all[b as int],
    ensures
        ({
            let t = enqueued(enqueued(order, all, a), all, b);
            t.index_of(a) < t.index_of(b)
        }),
{
    let s = enqueued(order, all, a);
    law_added_timer_waits_its_turn(order, all, a, 0);
    law_enqueued_in_time(order, all, a);
    let p = s.index_of(a);
    assert(s.no_duplicates()) by {
        let q = expiry_position(expiries(order, all), all[a as int]);
        assert forall|x: int, y: int| 0 <= x < s.len() && 0 <= y < s.len() && x != y implies s[x]
            != s[y] by {
            assert(x != q ==> order.contains(s[x]));
            assert(y != q ==> order.contains(s[y]));
        }
    }
    assert(!s.contains(b)) by {
        if s.contains(b) {
            let k = choose|k: int| 0 <= k < s.len() && s[k] == b;
            let q = expiry_position(expiries(order, all), all[a as int]);
            assert(k != q);
            assert(order.contains(s[k]));
        }
    }
    law_enqueued_in_time(s, all, b);
    let t = enqueued(s, all, b);
    law_added_timer_waits_its_turn(s, all, b, 0);
    let q = expiry_position(expiries(s, all), all[b as int]);
    assert(t[q] == b);
    assert forall|k: int| 0 <= k < t.len() && t[k] == b implies k == q by {
        if k < q {
            assert(s[k] == b);
        } else if k > q {
            assert(s[k - 1] == b);
        }
    }
    assert(t.index_of(b) == q);
    assert(p < q) by {
        if q <= p {
            assert(all[s[p] as int] > all[b as int]);
        }
    }
    assert(t[p] == a);
    assert forall|k: int| 0 <= k < t.len() && t[k] == a implies k == p by {
        if k < q {
            assert(s[k] == a);
        } else if k > q {
            assert(s[k - 1] == a);
        }
    }
    assert(t.index_of(a) == p);
}

/// A timer that is added expires first exactly if it expires earlier than all others; otherwise the first
/// one stays. Removing it leaves the queue as it was.
pub proof fn law_add_then_first(
    add: &mut timerqueue_head,
    node: usize,
    leftmost: bool,
    head: &timerqueue_head,
    first: Option<usize>,
    del: &mut timerqueue_head,
    more: bool,
)
    requires
        old(add).wf(),
        node < old(add).count(),
        !old(add).order().contains(node),
        call_ensures(timerqueue_add, (add, node), leftmost),
        *head == *final(add),
        call_ensures(timerqueue_head::first, (head,), first),
        *old(del) == *final(add),
        call_ensures(timerqueue_del, (del, node), more),
    ensures
        final(add).order().len() == old(add).order().len() + 1,
        leftmost == (old(add).order().len() == 0 || old(add).expires()[node as int]
            < old(add).expires()[old(add).order()[0] as int]),
        first == Some(
            if leftmost {
                node
            } else {
                old(add).order()[0]
            },
        ),
        final(del).order() == old(add).order(),
        more == (old(add).order().len() > 0),
{
    old(add).lemma_wf();
    let order = old(add).order();
    let all = old(add).expires();
    law_added_timer_waits_its_turn(order, all, node, 0);
    let t = enqueued(order, all, node);
    let pos = t.index_of(node);
    if order.len() > 0 {
        if pos > 0 {
            assert(t.remove(pos)[0] == t[0]);
            assert(t[0] != node) by {
                assert(order.contains(order[0]));
            }
        } else {
            law_added_timer_waits_its_turn(order, all, node, 1);
            assert(t.remove(pos)[0] == t[1]);
        }
    }
}

/// Going through a queue from its first timer on meets every timer in turn, in the order in which they
/// expire.
pub proof fn law_iteration(head: &timerqueue_head, i: int, next: Option<usize>)
    requires
        head.wf(),
        0 <= i < head.order().len(),
        call_ensures(timerqueue_iterate_next, (head, Some(head.order()[i])), next),
    ensures
        i + 1 < head.order().len() ==> next == Some(head.order()[i + 1])
            && head.expires()[head.order()[i] as int] <= head.expires()[next->0 as int],
        i + 1 == head.order().len() ==> next is None,
{
    head.lemma_wf();
    let o = head.order();
    assert(o.contains(o[i]));
    assert(o.index_of(o[i]) == i);
}

/// A queue whose timers know their neighbours orders them as one does whose timers do not.
pub proof fn law_queues_agree(
    a: &mut timerqueue_head,
    node: usize,
    leftmost: bool,
    b: &mut timerqueue_linked_head,
    leftmost_too: bool,
)
    requires
        old(a).order() == old(b).order(),
        old(a).expires() == old(b).expires(),
        call_ensures(timerqueue_add, (a, node), leftmost),
        call_ensures(timerqueue_linked_add, (b, node), leftmost_too),
    ensures
        final(a).order() == final(b).order(),
        final(a).expires() == final(b).expires(),
        leftmost == leftmost_too,
{
}

/// The neighbours of a timer are those before it and behind it in the order.
pub proof fn law_neighbours(head: &timerqueue_linked_head, i: int, next: Option<usize>, prev: Option<usize>)
    requires
        head.wf(),
        0 <= i < head.order().len(),
        call_ensures(timerqueue_linked_head::next, (head, head.order()[i]), next),
        call_ensures(timerqueue_linked_head::prev, (head, head.order()[i]), prev),
    ensures
        i + 1 < head.order().len() ==> next == Some(head.order()[i + 1]),
        i + 1 == head.order().len() ==> next is None,
        i > 0 ==> prev == Some(head.order()[i - 1]),
        i == 0 ==> prev is None,
{
    head.lemma_wf();
    let o = head.order();
    assert(o.contains(o[i]));
    assert(o.index_of(o[i]) == i);
}

} // verus!
