use vstd::multiset::Multiset;
use vstd::prelude::*;
use vstd::string::StringExecFns;

verus! {

/// One cell of a heap-ordered tree. `child` heads the list of this node's
/// subtrees; `next` links this node to its right sibling in its parent's list.
struct Node {
    val: i64,
    next: Option<Box<Node>>,
    child: Option<Box<Node>>,
}

/// The values held by a node, its subtrees and its right siblings.
spec fn values(f: Option<Box<Node>>) -> Multiset<i64>
    decreases f,
{
    match f {
        None => Multiset::empty(),
        Some(n) => values(n.child).add(values(n.next)).insert(n.val),
    }
}

/// Every node of the sibling list `f`, and every node below it, holds a
/// value no larger than any value in its subtrees.
spec fn ordered(f: Option<Box<Node>>) -> bool
    decreases f,
{
    match f {
        None => true,
        Some(n) => {
            &&& forall|x: i64| #[trigger] values(n.child).count(x) > 0 ==> n.val <= x
            &&& ordered(n.child)
            &&& ordered(n.next)
        },
    }
}

/// Number of trees in the sibling list `f`.
spec fn list_len(f: Option<Box<Node>>) -> nat
    decreases f,
{
    match f {
        None => 0,
        Some(n) => 1 + list_len(n.next),
    }
}

/// The meld of two roots: the one with the larger value becomes the leftmost
/// child of the other (on equal values, `b` becomes the child), with the
/// survivor's old children following it as its right siblings.
spec fn meld(a: Box<Node>, b: Box<Node>) -> Box<Node> {
    if a.val > b.val {
        Box::new(Node { val: b.val, next: b.next, child: Some(Box::new(Node { val: a.val, next: b.child, child: a.child })) })
    } else {
        Box::new(Node { val: a.val, next: a.next, child: Some(Box::new(Node { val: b.val, next: a.child, child: b.child })) })
    }
}

/// A node cut off from its right siblings.
spec fn detach(n: Box<Node>) -> Box<Node> {
    Box::new(Node { val: n.val, next: None, child: n.child })
}

/// The trees of a sibling list, each cut off from its siblings, from left
/// to right.
spec fn trees(f: Option<Box<Node>>) -> Seq<Box<Node>>
    decreases f,
{
    match f {
        None => Seq::empty(),
        Some(n) => seq![detach(n)] + trees(n.next),
    }
}

/// First pass of the consolidation: trees are taken two at a time from the
/// front and melded, each result pushed on top of the stack `acc` (listed
/// top first); an odd last tree is pushed as it is.
spec fn first_pass(ts: Seq<Box<Node>>, acc: Seq<Box<Node>>) -> Seq<Box<Node>>
    decreases ts.len(),
{
    if ts.len() == 0 {
        acc
    } else if ts.len() == 1 {
        seq![ts[0]] + acc
    } else {
        first_pass(ts.subrange(2, ts.len() as int), seq![meld(ts[0], ts[1])] + acc)
    }
}

/// Second pass: the trees still on the stack are popped one by one and
/// each melded into the running tree `t`.
spec fn fold_with(t: Box<Node>, rest: Seq<Box<Node>>) -> Box<Node>
    decreases rest.len(),
{
    if rest.len() == 0 {
        t
    } else {
        fold_with(meld(t, rest[0]), rest.drop_first())
    }
}

/// The tree that two-pass consolidation makes of a sibling list.
spec fn two_pass(list: Option<Box<Node>>) -> Option<Box<Node>> {
    let stack = first_pass(trees(list), Seq::empty());
    if stack.len() == 0 {
        None
    } else {
        Some(fold_with(stack[0], stack.drop_first()))
    }
}

/// A single heap-ordered tree: a root with no siblings.
spec fn is_tree(t: Box<Node>) -> bool {
    t.next is None && ordered(Some(t))
}

impl Node {
    /// Melds two trees: the root with the larger value becomes the leftmost
    /// child of the other; on equal values `b` becomes the child.
    fn merge(a: Box<Node>, b: Box<Node>) -> (r: Box<Node>)
        requires
            is_tree(a),
            is_tree(b),
        ensures
            r == meld(a, b),
            is_tree(r),
            values(Some(r)) =~= values(Some(a)).add(values(Some(b))),
    {
        let mut a = a;
        let mut b = b;
        if a.val > b.val {
            let ghost a0 = a;
            let ghost b0 = b;
            a.next = b.child.take();
            proof {
                Node::lemma_relink(a0, b0, a, b);
            }
            b.child = Some(a);
            assert(values(Some(b)) =~= values(Some(a0)).add(values(Some(b0))));
            b
        } else {
            let ghost a0 = a;
            let ghost b0 = b;
            b.next = a.child.take();
            proof {
                Node::lemma_relink(b0, a0, b, a);
            }
            a.child = Some(b);
            assert(values(Some(a)) =~= values(Some(a0)).add(values(Some(b0))));
            a
        }
    }

    /// `lo` is about to become the leftmost child of `hi`, carrying the old
    /// children of `hi` as its siblings.
    proof fn lemma_relink(lo0: Box<Node>, hi0: Box<Node>, lo: Box<Node>, hi: Box<Node>)
        requires
            is_tree(lo0),
            is_tree(hi0),
            hi0.val <= lo0.val,
            lo.val == lo0.val,
            lo.child == lo0.child,
            lo.next == hi0.child,
            hi.val == hi0.val,
            hi.next is None,
        ensures
            values(Some(lo)) =~= values(Some(lo0)).add(values(hi0.child)),
            ordered(Some(lo)),
            forall|x: i64| #[trigger] values(Some(lo)).count(x) > 0 ==> hi.val <= x,
    {
        reveal_with_fuel(values, 2);
        reveal_with_fuel(ordered, 2);
        assert(values(lo0.next) =~= Multiset::empty());
        assert(values(Some(lo)) =~= values(Some(lo0)).add(values(hi0.child)));
        assert forall|x: i64| #[trigger] values(Some(lo)).count(x) > 0 implies hi.val <= x by {
            if values(lo0.child).count(x) > 0 {
                assert(lo0.val <= x);
            }
        }
    }

    /// Folds a sibling list of trees back into one tree in two passes: trees
    /// are melded in pairs from the left and the results pushed onto a stack,
    /// then the stack is popped and folded into a single running tree.
    fn merge_list(list: Option<Box<Node>>) -> (r: Option<Box<Node>>)
        requires
            ordered(list),
        ensures
            r == two_pass(list),
            match r {
                None => true,
                Some(t) => is_tree(t),
            },
            values(r) =~= values(list),
    {
        let mut rest = list;
        let mut acc: Option<Box<Node>> = None;
        while rest.is_some()
            invariant
                ordered(rest),
                ordered(acc),
                values(rest).add(values(acc)) =~= values(list),
                first_pass(trees(rest), trees(acc)) == first_pass(trees(list), Seq::empty()),
            decreases list_len(rest),
        {
            let ghost acc0 = trees(acc);
            let mut a = rest.take().unwrap();
            let ghost a0 = a;
            rest = a.next.take();
            proof {
                Node::lemma_detach(a0, a);
                assert(a == detach(a0));
            }
            if rest.is_some() {
                let ghost r1 = rest;
                let mut b = rest.take().unwrap();
                let ghost b0 = b;
                rest = b.next.take();
                proof {
                    Node::lemma_detach(b0, b);
                    assert(b == detach(b0));
                    let ts = trees(Some(a0));
                    assert(a0.next == Some(b0));
                    assert(trees(Some(b0)) == seq![b] + trees(rest));
                    assert(ts == seq![a] + trees(Some(b0)));
                    assert(ts =~= seq![a, b] + trees(rest));
                    assert(ts.subrange(2, ts.len() as int) =~= trees(rest));
                }
                a = Node::merge(a, b);
            } else {
                proof {
                    assert(a0.next is None);
                    assert(trees(a0.next) =~= Seq::empty());
                    assert(trees(Some(a0)) =~= seq![a]);
                }
            }
            let ghost a1 = a;
            a.next = acc;
            proof {
                Node::lemma_attach(a1, a);
                assert(detach(a) == a1);
                assert(trees(Some(a)) =~= seq![a1] + acc0);
            }
            acc = Some(a);
        }
        assert(values(rest) =~= Multiset::empty());
        assert(trees(rest) =~= Seq::empty());
        match acc {
            None => None,
            Some(t) => {
                let mut tree = t;
                let ghost t0 = tree;
                let mut pending = tree.next.take();
                proof {
                    Node::lemma_detach(t0, tree);
                    assert(tree == detach(t0));
                    let stack = trees(Some(t0));
                    assert(stack.drop_first() =~= trees(pending));
                }
                while pending.is_some()
                    invariant
                        is_tree(tree),
                        ordered(pending),
                        values(Some(tree)).add(values(pending)) =~= values(list),
                        two_pass(list) == Some(fold_with(tree, trees(pending))),
                    decreases list_len(pending),
                {
                    let mut p = pending.take().unwrap();
                    let ghost p0 = p;
                    pending = p.next.take();
                    proof {
                        Node::lemma_detach(p0, p);
                        assert(p == detach(p0));
                        assert(trees(Some(p0)).drop_first() =~= trees(pending));
                    }
                    tree = Node::merge(tree, p);
                }
                assert(values(pending) =~= Multiset::empty());
                assert(trees(pending) =~= Seq::empty());
                Some(tree)
            },
        }
    }

    /// Cutting a node off its sibling list leaves a tree and the rest of the list.
    proof fn lemma_detach(n0: Box<Node>, n: Box<Node>)
        requires
            ordered(Some(n0)),
            n.val == n0.val,
            n.child == n0.child,
            n.next is None,
        ensures
            is_tree(n),
            ordered(n0.next),
            values(Some(n0)) =~= values(Some(n)).add(values(n0.next)),
            list_len(Some(n0)) == 1 + list_len(n0.next),
    {
        reveal_with_fuel(values, 2);
        reveal_with_fuel(ordered, 2);
    }

    /// Putting a tree in front of a sibling list.
    proof fn lemma_attach(t: Box<Node>, n: Box<Node>)
        requires
            is_tree(t),
            ordered(n.next),
            n.val == t.val,
            n.child == t.child,
        ensures
            ordered(Some(n)),
            values(Some(n)) =~= values(Some(t)).add(values(n.next)),
    {
        reveal_with_fuel(values, 2);
        reveal_with_fuel(ordered, 2);
    }
}

/// A pairing heap of `i64` values: a meldable min-priority queue.
pub struct PairingHeap {
    head: Option<Box<Node>>,
    size: usize,
}

impl View for PairingHeap {
    type V = Multiset<i64>;

    closed spec fn view(&self) -> Multiset<i64> {
        values(self.head)
    }
}

impl PairingHeap {
    /// The heap is one heap-ordered tree (or empty) and `size` counts its values.
    pub closed spec fn wf(&self) -> bool {
        &&& match self.head {
            None => true,
            Some(t) => is_tree(t),
        }
        &&& self.size == values(self.head).len()
    }

    pub fn new() -> (h: Self)
        ensures
            h.wf(),
            h@ =~= Multiset::<i64>::empty(),
    {
        PairingHeap { head: None, size: 0 }
    }

    pub fn len(&self) -> (r: usize)
        requires
            self.wf(),
        ensures
            r == self@.len(),
    {
        self.size
    }

    pub fn insert(&mut self, val: i64)
        requires
            old(self).wf(),
            old(self)@.len() < usize::MAX,
        ensures
            final(self).wf(),
            final(self)@ =~= old(self)@.insert(val),
            final(self)@.len() == old(self)@.len() + 1,
    {
        let node = Box::new(Node { val, next: None, child: None });
        proof {
            reveal_with_fuel(values, 2);
            reveal_with_fuel(ordered, 2);
            assert(is_tree(node));
            assert(values(Some(node)) =~= Multiset::singleton(val));
        }
        self.head = match self.head.take() {
            None => Some(node),
            Some(h) => Some(Node::merge(h, node)),
        };
        self.size = self.size + 1;
    }

    pub fn delete_min(&mut self) -> (r: Option<i64>)
        requires
            old(self).wf(),
        ensures
            final(self).wf(),
            match r {
                None => old(self)@.len() == 0 && final(self)@ == old(self)@,
                Some(m) => {
                    &&& removes_min(old(self)@, m, final(self)@)
                    &&& final(self)@.len() == old(self)@.len() - 1
                },
            },
    {
        match self.head.take() {
            None => None,
            Some(root) => {
                let mut root = root;
                let children = root.child.take();
                proof {
                    reveal_with_fuel(values, 2);
                    assert(values(Some(root)) =~= Multiset::singleton(root.val));
                }
                self.head = Node::merge_list(children);
                self.size = self.size - 1;
                assert(self@ =~= old(self)@.remove(root.val));
                Some(root.val)
            },
        }
    }
}

/// The values held in all the sibling lists that a borrowed work stack points to.
spec fn borrowed_stack_values(s: Seq<&Box<Node>>) -> Multiset<i64>
    decreases s.len(),
{
    if s.len() == 0 {
        Multiset::empty()
    } else {
        borrowed_stack_values(s.drop_last()).add(values(Some(*s.last())))
    }
}

proof fn lemma_values_unfold(n: Box<Node>)
    ensures
        values(Some(n)) =~= values(n.child).add(values(n.next)).insert(n.val),
        values(Some(n)).len() == values(n.child).len() + values(n.next).len() + 1,
{
}

/// Amount of work left to tear down a sibling list: each node counts once,
/// plus once more for every node below it.
spec fn teardown_work(f: Option<Box<Node>>) -> nat
    decreases f,
{
    match f {
        None => 0,
        Some(n) => 1 + values(n.child).len() + teardown_work(n.child) + teardown_work(n.next),
    }
}

/// Moves a link out, leaving it empty.
fn take_link(link: &mut Option<Box<Node>>) -> (r: Option<Box<Node>>)
    ensures
        r == *old(link),
        *final(link) is None,
    opens_invariants none
    no_unwind
{
    let mut out: Option<Box<Node>> = None;
    std::mem::swap(link, &mut out);
    out
}

/// Rotating the leftmost child `c` of `n` above it (so that `n` becomes the
/// first sibling of `c`, carrying the old siblings of `c` as its children)
/// leaves less work.
proof fn lemma_rotate_work(n0: Box<Node>, c0: Box<Node>, n: Box<Node>, c: Box<Node>)
    requires
        n0.child == Some(c0),
        n.val == n0.val,
        n.next == n0.next,
        n.child == c0.next,
        c.val == c0.val,
        c.child == c0.child,
        c.next == Some(n),
    ensures
        teardown_work(Some(c)) < teardown_work(Some(n0)),
{
    reveal_with_fuel(teardown_work, 2);
    reveal_with_fuel(values, 2);
    lemma_values_unfold(c0);
}

impl Drop for PairingHeap {
    /// Frees the tree one node at a time. A node with children first has its
    /// leftmost child rotated above it; a node without children is unlinked
    /// from its siblings and freed. No recursion, so the depth of the tree
    /// never reaches the call stack.
    fn drop(&mut self)
        ensures
            final(self)@ =~= Multiset::<i64>::empty(),
        opens_invariants none
        no_unwind
    {
        let mut cur = take_link(&mut self.head);
        loop
            decreases teardown_work(cur),
        {
            match cur {
                None => break,
                Some(n) => {
                    let mut n = n;
                    let ghost n0 = n;
                    let c = take_link(&mut n.child);
                    match c {
                        None => {
                            cur = take_link(&mut n.next);
                            proof {
                                reveal_with_fuel(teardown_work, 2);
                            }
                        },
                        Some(c) => {
                            let mut c = c;
                            let ghost c0 = c;
                            n.child = take_link(&mut c.next);
                            c.next = Some(n);
                            proof {
                                lemma_rotate_work(n0, c0, n, c);
                            }
                            cur = Some(c);
                        },
                    }
                },
            }
        }
    }
}

/// A sibling list in preorder, one entry per node: its value, whether it
/// has children, and whether it has a right sibling.
spec fn encoding(f: Option<Box<Node>>) -> Seq<(i64, bool, bool)>
    decreases f,
{
    match f {
        None => Seq::empty(),
        Some(n) => seq![(n.val, n.child is Some, n.next is Some)] + encoding(n.child) + encoding(
            n.next,
        ),
    }
}

/// What is still to be encoded from a borrowed work stack, top first.
spec fn pending_encoding(nodes: Seq<&Box<Node>>) -> Seq<(i64, bool, bool)>
    decreases nodes.len(),
{
    if nodes.len() == 0 {
        Seq::empty()
    } else {
        encoding(Some(*nodes.last())) + pending_encoding(nodes.drop_last())
    }
}

/// Rebuilds one node from its entry: its subtrees are on top of the stack
/// of finished lists, its right siblings right below them.
spec fn rebuild_step(entry: (i64, bool, bool), built: Seq<Box<Node>>) -> Seq<Box<Node>> {
    let child = if entry.1 && built.len() > 0 { Some(built.last()) } else { None };
    let rest = if entry.1 && built.len() > 0 { built.drop_last() } else { built };
    let next = if entry.2 && rest.len() > 0 { Some(rest.last()) } else { None };
    let rest2 = if entry.2 && rest.len() > 0 { rest.drop_last() } else { rest };
    rest2.push(Box::new(Node { val: entry.0, next, child }))
}

/// Rebuilds from the last entry to the first.
spec fn rebuild(entries: Seq<(i64, bool, bool)>, built: Seq<Box<Node>>) -> Seq<Box<Node>>
    decreases entries.len(),
{
    if entries.len() == 0 {
        built
    } else {
        rebuild_step(entries[0], rebuild(entries.drop_first(), built))
    }
}

proof fn lemma_rebuild_concat(a: Seq<(i64, bool, bool)>, b: Seq<(i64, bool, bool)>, built: Seq<Box<Node>>)
    ensures
        rebuild(a + b, built) == rebuild(a, rebuild(b, built)),
    decreases a.len(),
{
    if a.len() > 0 {
        assert((a + b).drop_first() =~= a.drop_first() + b);
        lemma_rebuild_concat(a.drop_first(), b, built);
    } else {
        assert(a + b =~= b);
    }
}

/// Rebuilding from the encoding of a sibling list puts that very list on
/// top of the stack.
proof fn lemma_rebuild_encoding(f: Option<Box<Node>>, built: Seq<Box<Node>>)
    ensures
        rebuild(encoding(f), built) == match f {
            None => built,
            Some(n) => built.push(n),
        },
    decreases f,
{
    match f {
        None => {},
        Some(n) => {
            let head = seq![(n.val, n.child is Some, n.next is Some)];
            let e = encoding(f);
            assert(e =~= head + (encoding(n.child) + encoding(n.next)));
            lemma_rebuild_concat(head, encoding(n.child) + encoding(n.next), built);
            lemma_rebuild_concat(encoding(n.child), encoding(n.next), built);
            lemma_rebuild_encoding(n.next, built);
            let b1 = rebuild(encoding(n.next), built);
            lemma_rebuild_encoding(n.child, b1);
            let b2 = rebuild(encoding(n.child), b1);
            assert(head.drop_first() =~= Seq::<(i64, bool, bool)>::empty());
            assert(rebuild(head.drop_first(), b2) == b2);
            assert(rebuild(head, b2) == rebuild_step(head[0], b2));
            match n.next {
                None => {},
                Some(x) => {
                    assert(b1.drop_last() =~= built);
                },
            }
            match n.child {
                None => {},
                Some(c) => {
                    assert(b2.drop_last() =~= b1);
                },
            }
            assert(rebuild_step(head[0], b2) =~= built.push(n));
        },
    }
}

impl PairingHeap {
    /// The tree's preorder encoding, taken from an explicit work stack.
    fn encode(&self) -> (r: Vec<(i64, bool, bool)>)
        requires
            self.wf(),
        ensures
            r@ == encoding(self.head),
    {
        let mut out: Vec<(i64, bool, bool)> = Vec::new();
        let mut nodes: Vec<&Box<Node>> = Vec::new();
        match &self.head {
            None => {
                assert(encoding(self.head) =~= Seq::empty());
            },
            Some(h) => {
                nodes.push(h);
                assert(nodes@.drop_last() =~= Seq::<&Box<Node>>::empty());
                assert(nodes@.last() == h);
                assert(pending_encoding(nodes@.drop_last()) =~= Seq::empty());
                assert(pending_encoding(nodes@) =~= encoding(Some(*h)));
            },
        }
        assert(borrowed_stack_values(Seq::<&Box<Node>>::empty()) =~= Multiset::empty());
        assert(out@ + pending_encoding(nodes@) =~= encoding(self.head));
        while nodes.len() > 0
            invariant
                self.wf(),
                out@ + pending_encoding(nodes@) =~= encoding(self.head),
            decreases borrowed_stack_values(nodes@).len(),
        {
            let ghost s0 = nodes@;
            let ghost o0 = out@;
            let n = nodes.pop().unwrap();
            proof {
                assert(s0.drop_last() =~= nodes@);
                lemma_values_unfold(*n);
            }
            let ghost rest_vals = borrowed_stack_values(nodes@);
            let ghost rest = pending_encoding(nodes@);
            let ghost s1 = nodes@;
            match &n.next {
                None => {},
                Some(x) => {
                    nodes.push(x);
                    assert(nodes@.drop_last() =~= s1);
                },
            }
            assert(pending_encoding(nodes@) =~= encoding(n.next) + rest);
            assert(borrowed_stack_values(nodes@) =~= rest_vals.add(values(n.next)));
            let ghost rest_vals = borrowed_stack_values(nodes@);
            let ghost rest = pending_encoding(nodes@);
            let ghost s2 = nodes@;
            match &n.child {
                None => {},
                Some(c) => {
                    nodes.push(c);
                    assert(nodes@.drop_last() =~= s2);
                },
            }
            assert(pending_encoding(nodes@) =~= encoding(n.child) + rest);
            assert(borrowed_stack_values(nodes@) =~= rest_vals.add(values(n.child)));
            out.push((n.val, n.child.is_some(), n.next.is_some()));
            assert(encoding(Some(*n)) =~= seq![(n.val, n.child is Some, n.next is Some)] + encoding(n.child)
                + encoding(n.next));
        }
        out
    }

    /// A deep copy with the same tree shape and values, built without
    /// recursion: the source is encoded in preorder from an explicit work
    /// stack, and the copy is rebuilt from the last entry to the first on a
    /// stack of finished sibling lists.
    pub fn clone(&self) -> (r: Self)
        requires
            self.wf(),
        ensures
            r.wf(),
            r@ == self@,
            r.outline_spec() == self.outline_spec(),
    {
        let entries = self.encode();
        let mut built: Vec<Box<Node>> = Vec::new();
        let mut i: usize = entries.len();
        assert(entries@.subrange(i as int, entries@.len() as int) =~= Seq::<(i64, bool, bool)>::empty());
        while i > 0
            invariant
                0 <= i <= entries@.len(),
                built@ == rebuild(entries@.subrange(i as int, entries@.len() as int), Seq::empty()),
            decreases i,
        {
            i = i - 1;
            let ghost b0 = built@;
            let (val, has_child, has_next) = entries[i];
            let child = if has_child && built.len() > 0 {
                built.pop()
            } else {
                None
            };
            let ghost b1 = built@;
            let next = if has_next && built.len() > 0 {
                built.pop()
            } else {
                None
            };
            built.push(Box::new(Node { val, next, child }));
            proof {
                let tail = entries@.subrange(i as int, entries@.len() as int);
                assert(tail.drop_first() =~= entries@.subrange(i as int + 1, entries@.len() as int));
                assert(tail[0] == (val, has_child, has_next));
                if has_child && b0.len() > 0 {
                    assert(b1 =~= b0.drop_last());
                }
                assert(built@ =~= rebuild_step(tail[0], b0));
            }
        }
        proof {
            assert(entries@.subrange(0, entries@.len() as int) =~= entries@);
            lemma_rebuild_encoding(self.head, Seq::empty());
        }
        let head = built.pop();
        PairingHeap { head, size: self.size }
    }
}

/// The tree drawn as lines of (depth, value): a node, then its subtrees one
/// level deeper, then its right siblings at its own depth.
spec fn outline_of(f: Option<Box<Node>>, depth: int) -> Seq<(int, i64)>
    decreases f,
{
    match f {
        None => Seq::empty(),
        Some(n) => seq![(depth, n.val)] + outline_of(n.child, depth + 1) + outline_of(n.next, depth),
    }
}

/// What is still to be drawn from a work stack, top first.
spec fn pending_outline(nodes: Seq<&Box<Node>>, depths: Seq<usize>) -> Seq<(int, i64)>
    decreases nodes.len(),
{
    if nodes.len() == 0 || depths.len() == 0 {
        Seq::empty()
    } else {
        outline_of(Some(*nodes.last()), depths.last() as int) + pending_outline(
            nodes.drop_last(),
            depths.drop_last(),
        )
    }
}

pub open spec fn digit_char(d: int) -> char {
    seq!['0', '1', '2', '3', '4', '5', '6', '7', '8', '9'][d]
}

/// Decimal digits of `n`, most significant first, without leading zeros.
pub open spec fn digits(n: nat) -> Seq<char>
    decreases n,
{
    if n < 10 {
        seq![digit_char(n as int)]
    } else {
        digits(n / 10) + seq![digit_char((n % 10) as int)]
    }
}

/// `v` written in decimal, with a leading `-` when it is negative.
pub open spec fn decimal_text(v: int) -> Seq<char> {
    if v < 0 {
        seq!['-'] + digits((-v) as nat)
    } else {
        digits(v as nat)
    }
}

/// One line of the drawing: a tab per level of depth, then the value.
pub open spec fn line_text(line: (int, i64)) -> Seq<char> {
    Seq::new(line.0 as nat, |i: int| '\t') + decimal_text(line.1 as int) + seq!['\n']
}

pub open spec fn outline_text(lines: Seq<(int, i64)>) -> Seq<char>
    decreases lines.len(),
{
    if lines.len() == 0 {
        Seq::empty()
    } else {
        outline_text(lines.drop_last()) + line_text(lines.last())
    }
}

/// The text of one decimal digit.
fn digit_str(d: u8) -> (r: &'static str)
    requires
        d < 10,
    ensures
        r@ == seq![digit_char(d as int)],
{
    proof {
        reveal_strlit("0");
        reveal_strlit("1");
        reveal_strlit("2");
        reveal_strlit("3");
        reveal_strlit("4");
        reveal_strlit("5");
        reveal_strlit("6");
        reveal_strlit("7");
        reveal_strlit("8");
        reveal_strlit("9");
    }
    match d {
        0 => "0",
        1 => "1",
        2 => "2",
        3 => "3",
        4 => "4",
        5 => "5",
        6 => "6",
        7 => "7",
        8 => "8",
        _ => "9",
    }
}

/// The characters of the digits in `ds`, which lists them least
/// significant first, in reading order.
spec fn reading_order(ds: Seq<u8>) -> Seq<char> {
    Seq::new(ds.len(), |k: int| digit_char(ds[ds.len() - 1 - k] as int))
}

/// `v` written in decimal.
fn decimal(v: i64) -> (r: String)
    ensures
        r@ == decimal_text(v as int),
{
    let mut text = String::new();
    let magnitude: u64 = if v == i64::MIN {
        9223372036854775808u64
    } else if v < 0 {
        (-v) as u64
    } else {
        v as u64
    };
    assert(magnitude as int == if v < 0 { -(v as int) } else { v as int });
    if v < 0 {
        proof {
            reveal_strlit("-");
        }
        text.append("-");
    }
    let ghost sign = text@;
    let mut low_first: Vec<u8> = Vec::new();
    let mut m: u64 = magnitude;
    while m >= 10
        invariant
            digits(magnitude as nat) == digits(m as nat) + reading_order(low_first@),
            forall|k: int| 0 <= k < low_first@.len() ==> low_first@[k] < 10,
        decreases m,
    {
        let d = (m % 10) as u8;
        let ghost before = low_first@;
        low_first.push(d);
        assert(reading_order(low_first@) =~= seq![digit_char(d as int)] + reading_order(before));
        assert(digits(m as nat) == digits((m / 10) as nat) + seq![digit_char((m % 10) as int)]);
        m = m / 10;
    }
    let ghost before = low_first@;
    low_first.push(m as u8);
    assert(reading_order(low_first@) =~= seq![digit_char(m as int)] + reading_order(before));
    assert(digits(magnitude as nat) == reading_order(low_first@));
    let n = low_first.len();
    let mut i: usize = n;
    while i > 0
        invariant
            0 <= i <= n,
            n == low_first@.len(),
            forall|k: int| 0 <= k < low_first@.len() ==> low_first@[k] < 10,
            text@ == sign + reading_order(low_first@).subrange(0, n - i),
        decreases i,
    {
        i = i - 1;
        text.append(digit_str(low_first[i]));
        assert(reading_order(low_first@).subrange(0, n - i) =~= reading_order(low_first@).subrange(
            0,
            n - i - 1,
        ) + seq![digit_char(low_first@[i as int] as int)]);
    }
    assert(reading_order(low_first@).subrange(0, n as int) =~= reading_order(low_first@));
    text
}

/// The drawing has one line per value, and its lines hold exactly the values.
proof fn lemma_outline_values(f: Option<Box<Node>>, depth: int)
    ensures
        outline_of(f, depth).len() == values(f).len(),
        outline_of(f, depth).map_values(|p: (int, i64)| p.1).to_multiset() =~= values(f),
    decreases f,
{
    match f {
        None => {
            lemma_seq_empty_multiset(outline_of(f, depth).map_values(|p: (int, i64)| p.1));
        },
        Some(n) => {
            lemma_outline_values(n.child, depth + 1);
            lemma_outline_values(n.next, depth);
            lemma_values_unfold(n);
            let head = seq![(depth, n.val)];
            let c = outline_of(n.child, depth + 1);
            let x = outline_of(n.next, depth);
            let snd = |p: (int, i64)| p.1;
            assert(outline_of(f, depth) == head + c + x);
            assert((head + c + x).map_values(snd) =~= seq![n.val] + c.map_values(snd) + x.map_values(
                snd,
            ));
            vstd::seq_lib::lemma_multiset_commutative(seq![n.val] + c.map_values(snd), x.map_values(snd));
            vstd::seq_lib::lemma_multiset_commutative(seq![n.val], c.map_values(snd));
            lemma_seq_single_multiset(n.val);
        },
    }
}

pub(crate) proof fn lemma_seq_empty_multiset(e: Seq<i64>)
    requires
        e.len() == 0,
    ensures
        e.to_multiset() =~= Multiset::empty(),
{
    e.to_multiset_ensures();
    assert forall|x: i64| e.to_multiset().count(x) == 0 by {
        assert(!e.contains(x));
    }
}

proof fn lemma_seq_single_multiset(v: i64)
    ensures
        seq![v].to_multiset() =~= Multiset::singleton(v),
{
    let e = Seq::<i64>::empty();
    lemma_seq_empty_multiset(e);
    e.to_multiset_ensures();
    assert(e.push(v) =~= seq![v]);
}

/// The text has at least one character per line.
proof fn lemma_outline_text_len(lines: Seq<(int, i64)>)
    ensures
        outline_text(lines).len() >= lines.len(),
    decreases lines.len(),
{
    if lines.len() > 0 {
        lemma_outline_text_len(lines.drop_last());
    }
}

impl PairingHeap {
    /// The shape of the heap's tree as (depth, value) lines; used for
    /// diagnostics only.
    pub closed spec fn outline_spec(&self) -> Seq<(int, i64)> {
        outline_of(self.head, 0)
    }

    /// The drawing of a heap has one line per value, and its lines hold
    /// exactly the heap's values.
    pub proof fn lemma_outline_spec_values(&self)
        requires
            self.wf(),
        ensures
            self.outline_spec().len() == self@.len(),
            self.outline_spec().map_values(|p: (int, i64)| p.1).to_multiset() =~= self@,
    {
        lemma_outline_values(self.head, 0);
    }

    /// Walks the tree from an explicit work stack, listing each node with
    /// its depth: a node, then its subtrees, then its right siblings.
    pub fn outline(&self) -> (r: Vec<(usize, i64)>)
        requires
            self.wf(),
        ensures
            r@.map_values(|p: (usize, i64)| (p.0 as int, p.1)) == self.outline_spec(),
            r@.len() == self@.len(),
            r@.map_values(|p: (usize, i64)| p.1).to_multiset() =~= self@,
    {
        let mut out: Vec<(usize, i64)> = Vec::new();
        let mut nodes: Vec<&Box<Node>> = Vec::new();
        let mut depths: Vec<usize> = Vec::new();
        match &self.head {
            None => {
                assert(outline_of(self.head, 0) =~= Seq::empty());
            },
            Some(h) => {
                nodes.push(h);
                depths.push(0);
                assert(nodes@.drop_last() =~= Seq::<&Box<Node>>::empty());
                assert(depths@.drop_last() =~= Seq::<usize>::empty());
                assert(nodes@.last() == h);
                assert(depths@.last() == 0);
                assert(pending_outline(nodes@.drop_last(), depths@.drop_last()) =~= Seq::empty());
                assert(pending_outline(nodes@, depths@) =~= outline_of(Some(*h), 0));
            },
        }
        assert(borrowed_stack_values(Seq::<&Box<Node>>::empty()) =~= Multiset::empty());
        assert(out@.map_values(|p: (usize, i64)| (p.0 as int, p.1)) + pending_outline(nodes@, depths@)
            =~= self.outline_spec());
        while nodes.len() > 0
            invariant
                self.wf(),
                nodes@.len() == depths@.len(),
                forall|i: int|
                    0 <= i < nodes@.len() ==> depths@[i] + values(Some(*#[trigger] nodes@[i])).len()
                        <= self@.len(),
                out@.map_values(|p: (usize, i64)| (p.0 as int, p.1)) + pending_outline(nodes@, depths@)
                    =~= self.outline_spec(),
            decreases borrowed_stack_values(nodes@).len(),
        {
            let ghost s0 = nodes@;
            let ghost d0 = depths@;
            let ghost o0 = out@;
            let n = nodes.pop().unwrap();
            let d = depths.pop().unwrap();
            proof {
                assert(s0.drop_last() =~= nodes@);
                assert(d0.drop_last() =~= depths@);
                assert(n == s0[s0.len() - 1]);
                lemma_values_unfold(*n);
            }
            let ghost rest_vals = borrowed_stack_values(nodes@);
            let ghost rest = pending_outline(nodes@, depths@);
            let ghost s1 = nodes@;
            let ghost d1 = depths@;
            match &n.next {
                None => {},
                Some(x) => {
                    nodes.push(x);
                    depths.push(d);
                    assert(nodes@.drop_last() =~= s1);
                    assert(depths@.drop_last() =~= d1);
                },
            }
            assert(pending_outline(nodes@, depths@) =~= outline_of(n.next, d as int) + rest);
            assert(borrowed_stack_values(nodes@) =~= rest_vals.add(values(n.next)));
            let ghost rest_vals = borrowed_stack_values(nodes@);
            let ghost rest = pending_outline(nodes@, depths@);
            let ghost s2 = nodes@;
            let ghost d2 = depths@;
            match &n.child {
                None => {},
                Some(c) => {
                    nodes.push(c);
                    depths.push(d + 1);
                    assert(nodes@.drop_last() =~= s2);
                    assert(depths@.drop_last() =~= d2);
                },
            }
            assert(pending_outline(nodes@, depths@) =~= outline_of(n.child, d + 1) + rest);
            assert(borrowed_stack_values(nodes@) =~= rest_vals.add(values(n.child)));
            out.push((d, n.val));
            assert(out@ =~= o0.push((d, n.val)));
            assert(outline_of(Some(*n), d as int) =~= seq![(d as int, n.val)] + outline_of(n.child, d + 1)
                + outline_of(n.next, d as int));
            assert(out@.map_values(|p: (usize, i64)| (p.0 as int, p.1)) =~= o0.map_values(
                |p: (usize, i64)| (p.0 as int, p.1),
            ).push((d as int, n.val)));
        }
        proof {
            self.lemma_outline_spec_values();
            let spec_lines = out@.map_values(|p: (usize, i64)| (p.0 as int, p.1));
            assert(out@.map_values(|p: (usize, i64)| p.1) =~= spec_lines.map_values(|p: (int, i64)| p.1));
        }
        out
    }

    /// The tree drawn as text: one line per node, holding its value after
    /// a tab for each level of depth.
    pub fn render(&self) -> (r: String)
        requires
            self.wf(),
        ensures
            r@ == outline_text(self.outline_spec()),
            r@.len() == 0 <==> self@.len() == 0,
    {
        let lines = self.outline();
        let ghost spec_lines = lines@.map_values(|p: (usize, i64)| (p.0 as int, p.1));
        let mut text = String::new();
        let mut i: usize = 0;
        while i < lines.len()
            invariant
                0 <= i <= lines@.len(),
                spec_lines == lines@.map_values(|p: (usize, i64)| (p.0 as int, p.1)),
                spec_lines == self.outline_spec(),
                text@ == outline_text(spec_lines.subrange(0, i as int)),
            decreases lines@.len() - i,
        {
            let (depth, val) = lines[i];
            let ghost before = text@;
            let mut t: usize = 0;
            while t < depth
                invariant
                    0 <= t <= depth,
                    text@ == before + Seq::new(t as nat, |k: int| '\t'),
                decreases depth - t,
            {
                proof {
                    reveal_strlit("\t");
                }
                text.append("\t");
                assert(text@ =~= before + Seq::new((t + 1) as nat, |k: int| '\t'));
                t = t + 1;
            }
            let digits_text = decimal(val);
            text.append(digits_text.as_str());
            proof {
                reveal_strlit("\n");
            }
            text.append("\n");
            assert(spec_lines.subrange(0, i as int + 1).drop_last() =~= spec_lines.subrange(0, i as int));
            assert(text@ =~= outline_text(spec_lines.subrange(0, i as int + 1)));
            i = i + 1;
        }
        assert(spec_lines.subrange(0, lines@.len() as int) =~= spec_lines);
        proof {
            self.lemma_outline_spec_values();
            lemma_outline_text_len(self.outline_spec());
            if self@.len() == 0 {
                assert(self.outline_spec() =~= Seq::<(int, i64)>::empty());
            }
        }
        text
    }
}

/// `m` is a least value of `before`, and `after` is `before` with one copy
/// of `m` taken out.
pub open spec fn removes_min(before: Multiset<i64>, m: i64, after: Multiset<i64>) -> bool {
    &&& before.count(m) > 0
    &&& forall|x: i64| #[trigger] before.count(x) > 0 ==> m <= x
    &&& after == before.remove(m)
}

/// Removing the minimum again and again yields a non-decreasing sequence:
/// `outs[i]` is what the `i`-th removal returned, taking `states[i]` to
/// `states[i + 1]`. A drain that empties the heap returns exactly the values
/// it started with.
pub proof fn lemma_drain_nondecreasing(states: Seq<Multiset<i64>>, outs: Seq<i64>)
    requires
        states.len() == outs.len() + 1,
        forall|i: int| 0 <= i < outs.len() ==> removes_min(states[i], #[trigger] outs[i], states[i + 1]),
    ensures
        forall|i: int, j: int| 0 <= i <= j < outs.len() ==> outs[i] <= outs[j],
        states[outs.len() as int].len() == 0 ==> outs.to_multiset() =~= states[0],
{
    lemma_drain_returns(states, outs, 0);
    if states[outs.len() as int].len() == 0 {
        assert(outs.subrange(0, outs.len() as int) =~= outs);
        assert(states[outs.len() as int] =~= Multiset::empty());
    }
    assert forall|i: int, j: int| 0 <= i <= j < outs.len() implies outs[i] <= outs[j] by {
        lemma_drain_shrinks(states, outs, i, j);
        assert(removes_min(states[i], outs[i], states[i + 1]));
        assert(removes_min(states[j], outs[j], states[j + 1]));
        assert(states[j].count(outs[j]) <= states[i].count(outs[j]));
    }
}

/// From step `k` on, a drain returns what `states[k]` holds beyond the
/// final state.
proof fn lemma_drain_returns(states: Seq<Multiset<i64>>, outs: Seq<i64>, k: int)
    requires
        states.len() == outs.len() + 1,
        forall|i: int| 0 <= i < outs.len() ==> removes_min(states[i], #[trigger] outs[i], states[i + 1]),
        0 <= k <= outs.len(),
    ensures
        states[k] =~= outs.subrange(k, outs.len() as int).to_multiset().add(states[outs.len() as int]),
    decreases outs.len() - k,
{
    let n = outs.len() as int;
    if k == n {
        lemma_seq_empty_multiset(outs.subrange(k, n));
    } else {
        lemma_drain_returns(states, outs, k + 1);
        assert(removes_min(states[k], outs[k], states[k + 1]));
        assert(outs.subrange(k, n) =~= seq![outs[k]] + outs.subrange(k + 1, n));
        vstd::seq_lib::lemma_multiset_commutative(seq![outs[k]], outs.subrange(k + 1, n));
        lemma_seq_single_multiset(outs[k]);
        assert(states[k] =~= states[k + 1].insert(outs[k]));
        let rest = outs.subrange(k + 1, n).to_multiset();
        assert(outs.subrange(k, n).to_multiset() =~= Multiset::singleton(outs[k]).add(rest));
    }
}

/// Along a drain, a later state holds no value more often than an earlier one.
proof fn lemma_drain_shrinks(states: Seq<Multiset<i64>>, outs: Seq<i64>, i: int, k: int)
    requires
        states.len() == outs.len() + 1,
        forall|i: int| 0 <= i < outs.len() ==> removes_min(states[i], #[trigger] outs[i], states[i + 1]),
        0 <= i <= k < states.len(),
    ensures
        forall|x: i64| #[trigger] states[k].count(x) <= states[i].count(x),
    decreases k - i,
{
    if k > i {
        let j = k - 1;
        lemma_drain_shrinks(states, outs, i, j);
        assert(removes_min(states[j], outs[j], states[j + 1]));
    }
}

/// What a minimum removal returns, and what it leaves, depends on the values
/// alone: two heaps holding the same values (a heap and its clone) give the
/// same answer.
pub proof fn lemma_removal_determined(h: Multiset<i64>, a: i64, ha: Multiset<i64>, b: i64, hb: Multiset<i64>)
    requires
        removes_min(h, a, ha),
        removes_min(h, b, hb),
    ensures
        a == b,
        ha == hb,
{
    assert(a <= b);
    assert(b <= a);
}

/// Two drains that start from the same values, and take the same number of
/// steps, return the same sequence and pass through the same states.
pub proof fn lemma_drains_agree(
    states1: Seq<Multiset<i64>>,
    outs1: Seq<i64>,
    states2: Seq<Multiset<i64>>,
    outs2: Seq<i64>,
)
    requires
        states1.len() == outs1.len() + 1,
        states2.len() == outs2.len() + 1,
        outs1.len() == outs2.len(),
        states1[0] == states2[0],
        forall|i: int| 0 <= i < outs1.len() ==> removes_min(states1[i], #[trigger] outs1[i], states1[i + 1]),
        forall|i: int| 0 <= i < outs2.len() ==> removes_min(states2[i], #[trigger] outs2[i], states2[i + 1]),
    ensures
        outs1 == outs2,
        states1 == states2,
{
    assert forall|k: int| 0 <= k < states1.len() implies states1[k] == states2[k]
        && (k < outs1.len() ==> outs1[k] == outs2[k]) by {
        lemma_drains_agree_upto(states1, outs1, states2, outs2, k);
    }
    assert(outs1 =~= outs2);
    assert(states1 =~= states2);
}

proof fn lemma_drains_agree_upto(
    states1: Seq<Multiset<i64>>,
    outs1: Seq<i64>,
    states2: Seq<Multiset<i64>>,
    outs2: Seq<i64>,
    k: int,
)
    requires
        states1.len() == outs1.len() + 1,
        states2.len() == outs2.len() + 1,
        outs1.len() == outs2.len(),
        states1[0] == states2[0],
        forall|i: int| 0 <= i < outs1.len() ==> removes_min(states1[i], #[trigger] outs1[i], states1[i + 1]),
        forall|i: int| 0 <= i < outs2.len() ==> removes_min(states2[i], #[trigger] outs2[i], states2[i + 1]),
        0 <= k < states1.len(),
    ensures
        states1[k] == states2[k],
        k < outs1.len() ==> outs1[k] == outs2[k],
    decreases k,
{
    if k > 0 {
        let j = k - 1;
        lemma_drains_agree_upto(states1, outs1, states2, outs2, j);
        assert(removes_min(states1[j], outs1[j], states1[j + 1]));
        assert(removes_min(states2[j], outs2[j], states2[j + 1]));
        lemma_removal_determined(states1[j], outs1[j], states1[j + 1], outs2[j], states2[j + 1]);
    }
    if k < outs1.len() {
        assert(removes_min(states1[k], outs1[k], states1[k + 1]));
        assert(removes_min(states2[k], outs2[k], states2[k + 1]));
        lemma_removal_determined(states1[k], outs1[k], states1[k + 1], outs2[k], states2[k + 1]);
    }
}

} // verus!
