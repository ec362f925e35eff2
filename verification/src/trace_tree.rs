//! The prefix tree that interns call stacks. Nodes live in one arena in the
//! order of their creation, so that a node's index is its position and a
//! parent always stands before its children.
use crate::trace::Trace;
use vstd::prelude::*;

verus! {

/// The tree as a mathematical value: for each node, in the order of the
/// indices, its instruction pointer and the index of its parent. Node 0 is
/// the root, which stands for the empty stack.
pub type Nodes = Seq<(usize, usize)>;

/// Node `c` is the child of `parent` that carries `ip`.
pub open spec fn is_child(nodes: Nodes, parent: int, ip: usize, c: int) -> bool {
    &&& 1 <= c < nodes.len()
    &&& nodes[c].1 == parent
    &&& nodes[c].0 == ip
}

/// What makes a sequence of nodes a tree: the root in front, every parent
/// before its child, and no two children of one node with the same
/// instruction pointer.
pub open spec fn tree_wf(nodes: Nodes) -> bool {
    &&& nodes.len() >= 1
    &&& nodes[0] == (0usize, 0usize)
    &&& forall|i: int| 1 <= i < nodes.len() ==> (#[trigger] nodes[i]).1 < i
    &&& forall|i: int, j: int|
        1 <= i < nodes.len() && 1 <= j < nodes.len() && i != j && (#[trigger] nodes[i]).1 == (
        #[trigger] nodes[j]).1 ==> nodes[i].0 != nodes[j].0
}

/// `later` holds all of `earlier`, unchanged, in front.
pub open spec fn extends(later: Nodes, earlier: Nodes) -> bool {
    &&& earlier.len() <= later.len()
    &&& later.subrange(0, earlier.len() as int) == earlier
}

/// The instruction pointers on the way from the root to node `i`.
pub open spec fn path(nodes: Nodes, i: int) -> Seq<usize>
    decreases i,
{
    if i <= 0 || i >= nodes.len() || nodes[i].1 >= i {
        Seq::empty()
    } else {
        path(nodes, nodes[i].1 as int).push(nodes[i].0)
    }
}

/// The child of `parent` that carries `ip`, if there is one.
pub open spec fn child_of(nodes: Nodes, parent: int, ip: usize) -> Option<int> {
    if exists|c: int| is_child(nodes, parent, ip, c) {
        Some(choose|c: int| is_child(nodes, parent, ip, c))
    } else {
        None
    }
}

/// Interning `stack` below node `cur`: the tree afterwards and the node that
/// the stack ends at. A frame without a node gets one, at the end of the arena.
pub open spec fn intern(nodes: Nodes, cur: int, stack: Seq<usize>) -> (Nodes, int)
    decreases stack.len(),
{
    if stack.len() == 0 {
        (nodes, cur)
    } else {
        match child_of(nodes, cur, stack[0]) {
            Some(c) => intern(nodes, c, stack.drop_first()),
            None => intern(
                nodes.push((stack[0], cur as usize)),
                nodes.len() as int,
                stack.drop_first(),
            ),
        }
    }
}

/// The nodes that `later` has beyond `earlier`, in the order of their indices:
/// what is announced when a stack is interned.
pub open spec fn created(earlier: Nodes, later: Nodes) -> Nodes {
    later.subrange(earlier.len() as int, later.len() as int)
}

pub proof fn lemma_path_stable(earlier: Nodes, later: Nodes, i: int)
    requires
        extends(later, earlier),
        0 <= i < earlier.len(),
    ensures
        path(later, i) == path(earlier, i),
    decreases i,
{
    assert(later[i] == later.subrange(0, earlier.len() as int)[i]);
    if i > 0 && earlier[i].1 < i {
        lemma_path_stable(earlier, later, earlier[i].1 as int);
    }
}

pub proof fn lemma_path_injective(nodes: Nodes, i: int, j: int)
    requires
        tree_wf(nodes),
        0 <= i < nodes.len(),
        0 <= j < nodes.len(),
        path(nodes, i) == path(nodes, j),
    ensures
        i == j,
    decreases i,
{
    if i == 0 {
        if j != 0 {
            assert(nodes[j].1 < j);
            assert(path(nodes, j).len() > 0);
        }
    } else {
        assert(nodes[i].1 < i);
        assert(path(nodes, i).len() > 0);
        if j == 0 {
        } else {
            assert(nodes[j].1 < j);
            let pi = path(nodes, nodes[i].1 as int);
            let pj = path(nodes, nodes[j].1 as int);
            assert(pi.push(nodes[i].0).drop_last() == pi);
            assert(pj.push(nodes[j].0).drop_last() == pj);
            assert(pi.push(nodes[i].0).last() == nodes[i].0);
            assert(pj.push(nodes[j].0).last() == nodes[j].0);
            lemma_path_injective(nodes, nodes[i].1 as int, nodes[j].1 as int);
        }
    }
}

/// A node added below `cur` for an `ip` that `cur` has no child for leaves a tree.
proof fn lemma_push_keeps_tree(nodes: Nodes, cur: int, ip: usize)
    requires
        tree_wf(nodes),
        0 <= cur < nodes.len() <= usize::MAX,
        child_of(nodes, cur, ip) is None,
    ensures
        tree_wf(nodes.push((ip, cur as usize))),
        extends(nodes.push((ip, cur as usize)), nodes),
{
    let more = nodes.push((ip, cur as usize));
    let n = nodes.len() as int;
    assert forall|i: int, j: int|
        1 <= i < more.len() && 1 <= j < more.len() && i != j && (#[trigger] more[i]).1 == (
        #[trigger] more[j]).1 implies more[i].0 != more[j].0 by {
        if i == n {
            assert(more[j] == nodes[j]);
            if more[j].0 == ip {
                assert(is_child(nodes, cur, ip, j));
            }
        } else if j == n {
            assert(more[i] == nodes[i]);
            if more[i].0 == ip {
                assert(is_child(nodes, cur, ip, i));
            }
        } else {
            assert(more[i] == nodes[i]);
            assert(more[j] == nodes[j]);
        }
    }
    assert forall|i: int| 1 <= i < more.len() implies (#[trigger] more[i]).1 < i by {
        if i < n {
            assert(more[i] == nodes[i]);
        }
    }
    assert(more.subrange(0, n) == nodes);
}

/// What interning does: it only adds nodes, leaves a tree, and ends at the
/// one node whose path is the path of `cur` followed by `stack`.
pub proof fn lemma_intern(nodes: Nodes, cur: int, stack: Seq<usize>)
    requires
        tree_wf(nodes),
        0 <= cur < nodes.len(),
        nodes.len() + stack.len() <= usize::MAX,
    ensures
        tree_wf(intern(nodes, cur, stack).0),
        extends(intern(nodes, cur, stack).0, nodes),
        0 <= intern(nodes, cur, stack).1 < intern(nodes, cur, stack).0.len(),
        intern(nodes, cur, stack).0.len() <= nodes.len() + stack.len(),
        path(intern(nodes, cur, stack).0, intern(nodes, cur, stack).1) == path(nodes, cur)
            + stack,
    decreases stack.len(),
{
    if stack.len() == 0 {
        assert(nodes.subrange(0, nodes.len() as int) == nodes);
        assert(path(nodes, cur) + stack == path(nodes, cur));
    } else {
        let ip = stack[0];
        let rest = stack.drop_first();
        assert(path(nodes, cur).push(ip) + rest == path(nodes, cur) + stack);
        match child_of(nodes, cur, ip) {
            Some(c) => {
                assert(is_child(nodes, cur, ip, c));
                assert(nodes[c].1 < c);
                lemma_intern(nodes, c, rest);
            },
            None => {
                let more = nodes.push((ip, cur as usize));
                let n = nodes.len() as int;
                lemma_push_keeps_tree(nodes, cur, ip);
                lemma_intern(more, n, rest);
                lemma_path_stable(nodes, more, cur);
                let last = intern(more, n, rest).0;
                assert(last.subrange(0, n) == last.subrange(0, n + 1).subrange(0, n));
            },
        }
    }
}

/// Interning a stack part by part is interning the whole.
pub proof fn lemma_intern_concat(nodes: Nodes, cur: int, first: Seq<usize>, second: Seq<usize>)
    ensures
        intern(nodes, cur, first + second) == intern(
            intern(nodes, cur, first).0,
            intern(nodes, cur, first).1,
            second,
        ),
    decreases first.len(),
{
    if first.len() == 0 {
        assert(first + second == second);
    } else {
        assert((first + second)[0] == first[0]);
        assert((first + second).drop_first() == first.drop_first() + second);
        match child_of(nodes, cur, first[0]) {
            Some(c) => {
                lemma_intern_concat(nodes, c, first.drop_first(), second);
            },
            None => {
                lemma_intern_concat(
                    nodes.push((first[0], cur as usize)),
                    nodes.len() as int,
                    first.drop_first(),
                    second,
                );
            },
        }
    }
}

/// A stack that has its node is found again: interning the path of a node
/// ends at that node and adds nothing.
pub proof fn lemma_known_stack(nodes: Nodes, leaf: int)
    requires
        tree_wf(nodes),
        0 <= leaf < nodes.len(),
    ensures
        intern(nodes, 0, path(nodes, leaf)) == (nodes, leaf),
    decreases leaf,
{
    if leaf > 0 {
        let parent = nodes[leaf].1 as int;
        let ip = nodes[leaf].0;
        assert(nodes[leaf].1 < leaf);
        lemma_known_stack(nodes, parent);
        lemma_intern_concat(nodes, 0, path(nodes, parent), seq![ip]);
        assert(path(nodes, parent) + seq![ip] == path(nodes, leaf));
        assert(is_child(nodes, parent, ip, leaf));
        let c = choose|c: int| is_child(nodes, parent, ip, c);
        assert(nodes[c].1 == nodes[leaf].1);
        assert(c == leaf);
        assert(seq![ip][0] == ip);
        assert(seq![ip].drop_first() == Seq::<usize>::empty());
        assert(intern(nodes, leaf, Seq::<usize>::empty()) == (nodes, leaf));
        assert(intern(nodes, parent, seq![ip]) == (nodes, leaf));
    }
}

/// A stack that was interned once is never announced again: in every later
/// tree, interning it ends at the node it ended at before and creates
/// nothing.
pub proof fn lemma_interned_stack_is_known(
    earlier: Nodes,
    later: Nodes,
    leaf: int,
    stack: Seq<usize>,
)
    requires
        tree_wf(later),
        extends(later, earlier),
        0 <= leaf < earlier.len(),
        path(earlier, leaf) == stack,
    ensures
        intern(later, 0, stack) == (later, leaf),
        created(later, intern(later, 0, stack).0) == Seq::<(usize, usize)>::empty(),
{
    lemma_path_stable(earlier, later, leaf);
    lemma_known_stack(later, leaf);
}

/// Interning is a function of the stack: of two stacks interned one after
/// the other, with any growth of the tree in between, the indices are equal
/// if and only if the stacks are.
pub proof fn lemma_interning_is_a_function(
    nodes: Nodes,
    first: Seq<usize>,
    later: Nodes,
    second: Seq<usize>,
)
    requires
        tree_wf(nodes),
        tree_wf(later),
        extends(later, intern(nodes, 0, first).0),
        nodes.len() + first.len() <= usize::MAX,
        later.len() + second.len() <= usize::MAX,
    ensures
        (first == second) <==> intern(nodes, 0, first).1 == intern(later, 0, second).1,
{
    let (n1, r1) = intern(nodes, 0, first);
    let (n2, r2) = intern(later, 0, second);
    lemma_intern(nodes, 0, first);
    lemma_intern(later, 0, second);
    assert(path(nodes, 0) + first == first);
    assert(path(later, 0) + second == second);
    assert(extends(n2, n1)) by {
        assert(n2.subrange(0, n1.len() as int) == n2.subrange(0, later.len() as int).subrange(
            0,
            n1.len() as int,
        ));
    }
    lemma_path_stable(n1, n2, r1);
    if first == second {
        lemma_path_injective(n2, r1, r2);
    }
}

/// Parent before child: every node that interning creates hangs below a node
/// of smaller index, which is either older than the call or was announced
/// earlier in it.
pub proof fn lemma_parent_before_child(nodes: Nodes, stack: Seq<usize>, k: int)
    requires
        tree_wf(nodes),
        nodes.len() + stack.len() <= usize::MAX,
        0 <= k < created(nodes, intern(nodes, 0, stack).0).len(),
    ensures
        created(nodes, intern(nodes, 0, stack).0)[k].1 < nodes.len() + k,
{
    lemma_intern(nodes, 0, stack);
    let after = intern(nodes, 0, stack).0;
    assert(after[nodes.len() + k].1 < nodes.len() + k);
}

pub struct TraceNode {
    ip: usize,
    index: usize,
    parent: usize,
    children: Vec<usize>,
}

impl TraceNode {
    /// A node without children; it hangs below the root until it is placed.
    pub fn new(index: usize, ip: usize) -> (node: Self)
        ensures
            node.spec_ip() == ip,
            node.spec_index() == index,
            node.spec_parent() == 0,
            node.spec_children() == Seq::<usize>::empty(),
    {
        TraceNode { ip, index, parent: 0, children: Vec::new() }
    }

    /// The instruction pointer that the node carries.
    pub closed spec fn spec_ip(&self) -> usize {
        self.ip
    }

    /// The node's position in the arena.
    pub closed spec fn spec_index(&self) -> usize {
        self.index
    }

    /// The index of the node that this one hangs below.
    pub closed spec fn spec_parent(&self) -> usize {
        self.parent
    }

    /// The indices of the nodes that hang below this one.
    pub closed spec fn spec_children(&self) -> Seq<usize> {
        self.children@
    }
}

pub struct TraceTree {
    nodes: Vec<TraceNode>,
}

pub closed spec fn links(arena: Seq<TraceNode>) -> Nodes {
    arena.map_values(|n: TraceNode| (n.ip, n.parent))
}

/// Entry `k` of the child list of node `i` names a node that hangs below `i`.
pub closed spec fn child_ok(arena: Seq<TraceNode>, i: int, k: int) -> bool {
    let c = arena[i].children@[k] as int;
    1 <= c < arena.len() && arena[c].parent == i
}

/// Node `c` stands in the child list of its parent.
pub closed spec fn listed(arena: Seq<TraceNode>, c: int) -> bool {
    exists|k: int|
        0 <= k < arena[arena[c].parent as int].children@.len() && arena[arena[c].parent as int].children@[k]
            == c
}

impl View for TraceTree {
    type V = Nodes;

    closed spec fn view(&self) -> Nodes {
        links(self.nodes@)
    }
}

impl TraceTree {
    /// The arena is a tree, and the child lists say what the parent links say.
    pub closed spec fn wf(&self) -> bool {
        &&& tree_wf(self@)
        &&& forall|i: int|
            0 <= i < self.nodes@.len() ==> (#[trigger] self.nodes@[i]).index == i
        &&& forall|i: int, k: int|
            0 <= i < self.nodes@.len() && 0 <= k < self.nodes@[i].children@.len()
                ==> #[trigger] child_ok(self.nodes@, i, k)
        &&& forall|c: int| 1 <= c < self.nodes@.len() ==> #[trigger] listed(self.nodes@, c)
    }

    pub proof fn lemma_wf_is_tree(&self)
        requires
            self.wf(),
        ensures
            tree_wf(self@),
    {
    }

    pub fn new() -> (tree: Self)
        ensures
            tree.wf(),
            tree@ == seq![(0usize, 0usize)],
    {
        let mut nodes: Vec<TraceNode> = Vec::new();
        nodes.push(TraceNode::new(0, 0));
        let tree = TraceTree { nodes };
        proof {
            assert(tree@ == seq![(0usize, 0usize)]);
        }
        tree
    }

    /// The number of nodes, the root included: the index that the next new
    /// node gets.
    pub fn len(&self) -> (n: usize)
        ensures
            n == self@.len(),
    {
        self.nodes.len()
    }

    fn find_child(&self, cur: usize, ip: usize) -> (found: Option<usize>)
        requires
            self.wf(),
            cur < self@.len(),
        ensures
            match child_of(self@, cur as int, ip) {
                Some(c) => found == Some(c as usize) && 1 <= c < self@.len(),
                None => found is None,
            },
    {
        let children = &self.nodes[cur].children;
        let mut k: usize = 0;
        while k < children.len()
            invariant
                self.wf(),
                cur < self.nodes@.len(),
                children@ == self.nodes@[cur as int].children@,
                k <= children@.len(),
                forall|j: int| 0 <= j < k ==> self.nodes@[children@[j] as int].ip != ip,
            decreases children.len() - k,
        {
            let c = children[k];
            proof {
                assert(child_ok(self.nodes@, cur as int, k as int));
            }
            if self.nodes[c].ip == ip {
                proof {
                    assert(is_child(self@, cur as int, ip, c as int));
                    let chosen = choose|x: int| is_child(self@, cur as int, ip, x);
                    assert(self@[chosen].1 == self@[c as int].1);
                }
                return Some(c);
            }
            k += 1;
        }
        proof {
            if exists|x: int| is_child(self@, cur as int, ip, x) {
                let x = choose|x: int| is_child(self@, cur as int, ip, x);
                assert(listed(self.nodes@, x));
                let j = choose|j: int|
                    0 <= j < self.nodes@[self.nodes@[x].parent as int].children@.len()
                        && self.nodes@[self.nodes@[x].parent as int].children@[j] == x;
                assert(self.nodes@[children@[j] as int].ip == ip);
            }
        }
        None
    }

    #[verifier::rlimit(50)]
    fn add_child(&mut self, cur: usize, ip: usize) -> (index: usize)
        requires
            old(self).wf(),
            cur < old(self)@.len(),
            child_of(old(self)@, cur as int, ip) is None,
        ensures
            final(self).wf(),
            final(self)@ == old(self)@.push((ip, cur)),
            index == old(self)@.len(),
    {
        let index = self.nodes.len();
        let mut node = TraceNode::new(index, ip);
        node.parent = cur;
        let ghost before = self.nodes@;
        self.nodes.push(node);
        self.nodes[cur].children.push(index);
        proof {
            let after = self.nodes@;
            assert(after.len() == before.len() + 1);
            assert forall|i: int| 0 <= i < after.len() implies (#[trigger] links(after)[i]) == (
            old(self)@.push((ip, cur)))[i] by {
                if i < before.len() {
                    assert(after[i].ip == before[i].ip);
                    assert(after[i].parent == before[i].parent);
                }
            }
            assert(self@ == old(self)@.push((ip, cur)));
            lemma_push_keeps_tree(old(self)@, cur as int, ip);
            assert forall|i: int, k: int|
                0 <= i < after.len() && 0 <= k < after[i].children@.len() implies #[trigger] child_ok(
                after,
                i,
                k,
            ) by {
                if i == cur && k == before[i].children@.len() {
                } else if i < before.len() {
                    assert(child_ok(before, i, k));
                    assert(after[i].children@[k] == before[i].children@[k]);
                    let c = before[i].children@[k] as int;
                    assert(after[c].parent == before[c].parent);
                }
            }
            assert forall|c: int| 1 <= c < after.len() implies #[trigger] listed(after, c) by {
                if c < before.len() {
                    assert(listed(before, c));
                    let p = before[c].parent as int;
                    assert(old(self)@[c].1 < c);
                    let k = choose|k: int|
                        0 <= k < before[p].children@.len() && before[p].children@[k] == c;
                    assert(after[c].parent == p);
                    assert(0 <= k < after[p].children@.len());
                    assert(after[p].children@[k] == c);
                    assert(after[after[c].parent as int].children@[k] == c);
                } else {
                    let k = before[cur as int].children@.len() as int;
                    assert(after[c].parent == cur);
                    assert(after[cur as int].children@ == before[cur as int].children@.push(
                        index,
                    ));
                    assert(0 <= k < after[cur as int].children@.len());
                    assert(after[after[c].parent as int].children@[k] == c);
                }
            }
        }
        index
    }

    /// Interns the stack of `trace`, walked from the outermost caller to the
    /// innermost callee, and returns the index of the node it ends at. Each
    /// node that had to be created is appended to `on_new` as the pair of
    /// its instruction pointer and its parent's index, in the order of
    /// creation.
    #[verifier::rlimit(50)]
    pub fn index(&mut self, trace: Trace, on_new: &mut Vec<(usize, usize)>) -> (idx: usize)
        requires
            old(self).wf(),
        ensures
            final(self).wf(),
            final(self)@ == intern(old(self)@, 0, trace.stack()).0,
            idx == intern(old(self)@, 0, trace.stack()).1,
            idx < final(self)@.len(),
            path(final(self)@, idx as int) == trace.stack(),
            extends(final(self)@, old(self)@),
            final(on_new)@ == old(on_new)@ + created(old(self)@, final(self)@),
    {
        let frames = trace.as_slice();
        let ghost stack = trace.stack();
        let mut cur: usize = 0;
        let mut left: usize = frames.len();
        proof {
            assert(stack.skip(0) == stack);
            assert(stack.take(0) == Seq::<usize>::empty());
            assert(self@.subrange(0, self@.len() as int) == self@);
            assert(old(on_new)@ + created(old(self)@, self@) == old(on_new)@);
        }
        while left > 0
            invariant
                self.wf(),
                cur < self@.len(),
                left <= frames@.len(),
                stack == frames@.reverse(),
                path(self@, cur as int) == stack.take(frames@.len() - left),
                extends(self@, old(self)@),
                intern(self@, cur as int, stack.skip(frames@.len() - left)) == intern(
                    old(self)@,
                    0,
                    stack,
                ),
                on_new@ == old(on_new)@ + created(old(self)@, self@),
            decreases left,
        {
            let ghost done = frames@.len() - left;
            left -= 1;
            let ip = frames[left];
            proof {
                assert(stack.skip(done)[0] == ip);
                assert(stack.skip(done).drop_first() == stack.skip(done + 1));
                assert(stack.take(done + 1) == stack.take(done).push(ip));
                self.lemma_wf_is_tree();
            }
            match self.find_child(cur, ip) {
                Some(c) => {
                    proof {
                        assert(is_child(self@, cur as int, ip, c as int));
                        assert(self@[c as int].1 < c);
                    }
                    cur = c;
                },
                None => {
                    let ghost before = self@;
                    let ghost announced = on_new@;
                    let ghost parent = cur as int;
                    cur = self.add_child(cur, ip);
                    on_new.push((ip, self.nodes[cur].parent));
                    proof {
                        assert(self@.subrange(0, before.len() as int) == before);
                        lemma_path_stable(before, self@, parent);
                        assert(self@[cur as int] == (ip, parent as usize));
                        assert(self@[cur as int] == (ip, self.nodes@[cur as int].parent));
                        assert(self@.subrange(0, old(self)@.len() as int) == before.subrange(
                            0,
                            old(self)@.len() as int,
                        ));
                        assert(created(old(self)@, self@) == created(old(self)@, before).push(
                            self@[cur as int],
                        ));
                        assert(announced.push(self@[cur as int]) == old(on_new)@ + created(
                            old(self)@,
                            self@,
                        ));
                    }
                },
            }
        }
        proof {
            assert(stack.skip(frames@.len() as int).len() == 0);
            assert(stack.take(frames@.len() as int) == stack);
        }
        cur
    }
}

} // verus!
