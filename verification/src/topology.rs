//! The cascade distribution tree: built breadth first from the teacher,
//! and healed when a node fails.

use vstd::prelude::*;

use crate::addr::PeerAddr;
use std::collections::VecDeque;
use vstd::arithmetic::div_mod::lemma_fundamental_div_mod_converse;
use vstd::arithmetic::mul::lemma_mul_inequality;

verus! {

/// One node of the tree: its address, the addresses it forwards to, and the
/// address it receives from (none for the root or an orphan).
#[derive(Clone, Debug)]
pub struct TreeNode {
    pub addr: PeerAddr,
    pub children: Vec<PeerAddr>,
    pub parent: Option<PeerAddr>,
}

/// The whole tree; `root` is the teacher's address and `nodes` lists every
/// node, the root first when built.
#[derive(Clone, Debug)]
pub struct DistributionTree {
    pub root: PeerAddr,
    pub nodes: Vec<TreeNode>,
}

/// The mathematical value of a node.
pub struct NodeView {
    pub addr: PeerAddr,
    pub children: Seq<PeerAddr>,
    pub parent: Option<PeerAddr>,
}

/// The mathematical value of a tree.
pub struct TreeView {
    pub root: PeerAddr,
    pub nodes: Seq<NodeView>,
}

impl View for TreeNode {
    type V = NodeView;

    open spec fn view(&self) -> NodeView {
        NodeView { addr: self.addr, children: self.children@, parent: self.parent }
    }
}

pub open spec fn view_nodes(nodes: Seq<TreeNode>) -> Seq<NodeView> {
    nodes.map_values(|n: TreeNode| n@)
}

impl View for DistributionTree {
    type V = TreeView;

    open spec fn view(&self) -> TreeView {
        TreeView { root: self.root, nodes: view_nodes(self.nodes@) }
    }
}

/// `i` is the position of the first node whose address is `a`.
pub open spec fn is_first_at(nodes: Seq<NodeView>, a: PeerAddr, i: int) -> bool {
    &&& 0 <= i < nodes.len()
    &&& nodes[i].addr == a
    &&& forall|j: int| 0 <= j < i ==> #[trigger] nodes[j].addr != a
}

/// Some node has address `a`.
pub open spec fn has_node(nodes: Seq<NodeView>, a: PeerAddr) -> bool {
    exists|i: int| 0 <= i < nodes.len() && #[trigger] nodes[i].addr == a
}

/// What `reattach(orphan, new_parent)` makes of node `i`: the first node named
/// `new_parent` gains `orphan` as a child unless it has it already, and the
/// first node named `orphan` gets `new_parent` as its parent.
pub open spec fn reattached_node(nodes: Seq<NodeView>, orphan: PeerAddr, new_parent: PeerAddr, i: int) -> NodeView {
    let n = nodes[i];
    let children = if is_first_at(nodes, new_parent, i) && !n.children.contains(orphan) {
        n.children.push(orphan)
    } else {
        n.children
    };
    let parent = if is_first_at(nodes, orphan, i) { Some(new_parent) } else { n.parent };
    NodeView { addr: n.addr, children, parent }
}

pub open spec fn reattach_spec(t: TreeView, orphan: PeerAddr, new_parent: PeerAddr) -> TreeView {
    TreeView {
        root: t.root,
        nodes: Seq::new(t.nodes.len(), |i: int| reattached_node(t.nodes, orphan, new_parent, i)),
    }
}

/// Node `i` is not the root and has the fewest children of all such nodes,
/// and no earlier such node has as few.
pub open spec fn is_least_loaded_at(nodes: Seq<NodeView>, root: PeerAddr, i: int) -> bool {
    &&& 0 <= i < nodes.len()
    &&& nodes[i].addr != root
    &&& forall|j: int|
        0 <= j < nodes.len() && #[trigger] nodes[j].addr != root ==> nodes[i].children.len()
            <= nodes[j].children.len()
    &&& forall|j: int|
        0 <= j < i && #[trigger] nodes[j].addr != root ==> nodes[i].children.len()
            < nodes[j].children.len()
}

/// The address of the least loaded node other than the root, if any.
pub open spec fn least_loaded(nodes: Seq<NodeView>, root: PeerAddr) -> Option<PeerAddr> {
    if exists|i: int| is_least_loaded_at(nodes, root, i) {
        Some(nodes[choose|i: int| is_least_loaded_at(nodes, root, i)].addr)
    } else {
        None
    }
}

/// The branching factor actually used: at least one child per node.
pub open spec fn effective_bf(branching_factor: usize) -> int {
    if branching_factor == 0 { 1 } else { branching_factor as int }
}

pub open spec fn min_int(x: int, y: int) -> int {
    if x <= y { x } else { y }
}

/// Address of node `k` of a built tree: the root, then the peers in order.
pub open spec fn built_addr(root: PeerAddr, peers: Seq<PeerAddr>, k: int) -> PeerAddr {
    if k == 0 { root } else { peers[k - 1] }
}

/// Children of node `k` of a built tree: the `bf` peers that follow those
/// handed to nodes `0..k` (fewer at the end of the list).
pub open spec fn built_children(peers: Seq<PeerAddr>, bf: int, k: int) -> Seq<PeerAddr> {
    peers.subrange(min_int(k * bf, peers.len() as int), min_int(k * bf + bf, peers.len() as int))
}

/// Parent of node `k` of a built tree: node `(k - 1) / bf`; the root has none.
pub open spec fn built_parent(root: PeerAddr, peers: Seq<PeerAddr>, bf: int, k: int) -> Option<PeerAddr> {
    if k == 0 { None } else { Some(built_addr(root, peers, (k - 1) / bf)) }
}

/// The tree that `build` returns: a complete `bf`-ary tree filled breadth
/// first, the root at position 0 and peer `i` at position `i + 1`.
pub open spec fn build_spec(root: PeerAddr, peers: Seq<PeerAddr>, branching_factor: usize) -> TreeView {
    let bf = effective_bf(branching_factor);
    TreeView {
        root,
        nodes: Seq::new(
            peers.len() + 1,
            |k: int|
                NodeView {
                    addr: built_addr(root, peers, k),
                    children: built_children(peers, bf, k),
                    parent: built_parent(root, peers, bf, k),
                },
        ),
    }
}

/// The children of every node whose address is `failed`, in node order.
pub open spec fn orphans_of(nodes: Seq<NodeView>, failed: PeerAddr) -> Seq<PeerAddr>
    decreases nodes.len(),
{
    if nodes.len() == 0 {
        Seq::empty()
    } else {
        let rest = orphans_of(nodes.drop_last(), failed);
        if nodes.last().addr == failed {
            rest + nodes.last().children
        } else {
            rest
        }
    }
}

pub open spec fn other_addr(x: PeerAddr) -> spec_fn(PeerAddr) -> bool {
    |c: PeerAddr| c != x
}

pub open spec fn other_node(x: PeerAddr) -> spec_fn(NodeView) -> bool {
    |n: NodeView| n.addr != x
}

/// The node with `failed` taken out of its children.
pub open spec fn strip_child(n: NodeView, failed: PeerAddr) -> NodeView {
    NodeView { addr: n.addr, children: n.children.filter(other_addr(failed)), parent: n.parent }
}

/// The nodes other than `failed`, each with `failed` taken out of its children.
pub open spec fn stripped_nodes(nodes: Seq<NodeView>, failed: PeerAddr) -> Seq<NodeView> {
    nodes.filter(other_node(failed)).map_values(|n: NodeView| strip_child(n, failed))
}

/// Node `i` with its parent cleared when it is the first node of an orphan.
pub open spec fn detached_node(nodes: Seq<NodeView>, orphans: Seq<PeerAddr>, i: int) -> NodeView {
    let n = nodes[i];
    if orphans.contains(n.addr) && is_first_at(nodes, n.addr, i) {
        NodeView { addr: n.addr, children: n.children, parent: None }
    } else {
        n
    }
}

pub open spec fn detach_all(nodes: Seq<NodeView>, orphans: Seq<PeerAddr>) -> Seq<NodeView> {
    Seq::new(nodes.len(), |i: int| detached_node(nodes, orphans, i))
}

/// The tree after `remove_node(failed)`: every node named `failed` is gone,
/// no node lists `failed` as a child any more, and the first node of each
/// orphan has no parent.
pub open spec fn remove_spec(t: TreeView, failed: PeerAddr) -> TreeView {
    TreeView {
        root: t.root,
        nodes: detach_all(stripped_nodes(t.nodes, failed), orphans_of(t.nodes, failed)),
    }
}

/// Where `heal` hangs an orphan: the least loaded node other than the root,
/// or the root when there is none.
pub open spec fn heal_parent(t: TreeView) -> PeerAddr {
    match least_loaded(t.nodes, t.root) {
        Some(a) => a,
        None => t.root,
    }
}

/// The orphans reattached one after the other, each to the least loaded node
/// at that moment.
pub open spec fn reattach_all(t: TreeView, orphans: Seq<PeerAddr>) -> TreeView
    decreases orphans.len(),
{
    if orphans.len() == 0 {
        t
    } else {
        reattach_all(reattach_spec(t, orphans[0], heal_parent(t)), orphans.drop_first())
    }
}

/// The tree after `heal(failed)`.
pub open spec fn heal_spec(t: TreeView, failed: PeerAddr) -> TreeView {
    reattach_all(remove_spec(t, failed), orphans_of(t.nodes, failed))
}

proof fn lemma_mul_succ(h: int, b: int)
    ensures
        (h + 1) * b == h * b + b,
{
    assert((h + 1) * b == h * b + b) by (nonlinear_arith);
}

proof fn lemma_mul_ge_self(h: int, b: int)
    requires
        h >= 0,
        b >= 1,
    ensures
        h * b >= h,
{
    assert(h * b >= h * 1) by (nonlinear_arith)
        requires
            h >= 0,
            b >= 1,
    ;
}

pub proof fn lemma_first_unique(nodes: Seq<NodeView>, a: PeerAddr, i: int, j: int)
    requires
        is_first_at(nodes, a, i),
        is_first_at(nodes, a, j),
    ensures
        i == j,
{
    if i < j {
        assert(nodes[i].addr != a);
    } else if j < i {
        assert(nodes[j].addr != a);
    }
}

/// Two node sequences with the same addresses, position by position, have
/// their first occurrences at the same positions.
pub proof fn lemma_first_same_addrs(a: Seq<NodeView>, b: Seq<NodeView>, x: PeerAddr, i: int)
    requires
        a.len() == b.len(),
        forall|j: int| 0 <= j < a.len() ==> #[trigger] a[j].addr == b[j].addr,
    ensures
        is_first_at(a, x, i) == is_first_at(b, x, i),
{
    if is_first_at(a, x, i) {
        assert forall|j: int| 0 <= j < i implies #[trigger] b[j].addr != x by {
            assert(a[j].addr != x);
        }
    }
    if is_first_at(b, x, i) {
        assert forall|j: int| 0 <= j < i implies #[trigger] a[j].addr != x by {
            assert(b[j].addr != x);
        }
    }
}

pub proof fn lemma_least_unique(nodes: Seq<NodeView>, root: PeerAddr, i: int, j: int)
    requires
        is_least_loaded_at(nodes, root, i),
        is_least_loaded_at(nodes, root, j),
    ensures
        i == j,
{
    if i < j {
        assert(nodes[i].addr != root);
    } else if j < i {
        assert(nodes[j].addr != root);
    }
}

impl DistributionTree {
    /// Builds the distribution tree breadth first: the root takes the first
    /// `bf` peers as children, each of them the next `bf`, and so on, where
    /// `bf` is `branching_factor` but at least one.
    pub fn build(root: PeerAddr, peers: &[PeerAddr], branching_factor: usize) -> (t: Self)
        requires
            peers@.len() < usize::MAX,
        ensures
            t@ == build_spec(root, peers@, branching_factor),
    {
        let bf: usize = if branching_factor > 1 { branching_factor } else { 1 };
        let ghost b: int = bf as int;
        let ghost n: int = peers@.len() as int;
        let mut nodes: Vec<TreeNode> = Vec::new();
        nodes.push(TreeNode { addr: root, children: Vec::new(), parent: None });

        let mut queue: VecDeque<usize> = VecDeque::new();
        queue.push_back(0usize);
        let mut peer_idx: usize = 0;
        let ghost mut head: int = 0;

        while peer_idx < peers.len()
            invariant
                b == bf,
                b == effective_bf(branching_factor),
                n == peers@.len(),
                n < usize::MAX,
                0 <= head,
                peer_idx <= n,
                peer_idx == min_int(head * b, n),
                nodes@.len() == peer_idx + 1,
                queue@ =~= Seq::new((nodes@.len() - head) as nat, |i: int| (head + i) as usize),
                forall|k: int|
                    0 <= k < nodes@.len() ==> #[trigger] nodes@[k].addr == built_addr(root, peers@, k)
                        && nodes@[k].parent == built_parent(root, peers@, b, k),
                forall|k: int| 0 <= k < head ==> #[trigger] nodes@[k].children@ == built_children(peers@, b, k),
                forall|k: int| head <= k < nodes@.len() ==> #[trigger] nodes@[k].children@.len() == 0,
            decreases n - peer_idx,
        {
            proof {
                lemma_mul_ge_self(head, b);
            }
            // The queue always holds the next parent while peers remain.
            let parent_pos = queue.pop_front().unwrap();
            assert(parent_pos == head);
            let remaining = peers.len() - peer_idx;
            let count: usize = if bf < remaining { bf } else { remaining };
            let parent_addr = nodes[parent_pos].addr;
            let ghost start_len: int = nodes@.len() as int;

            let mut idx: usize = 0;
            while idx < count
                invariant
                    b == bf,
                    n == peers@.len(),
                    n < usize::MAX,
                    0 <= head,
                    parent_pos == head,
                    peer_idx == head * b,
                    peer_idx < n,
                    count <= b,
                    peer_idx + count <= n,
                    count == min_int(head * b + b, n) - head * b,
                    idx <= count,
                    start_len == peer_idx + 1,
                    head < start_len,
                    parent_addr == built_addr(root, peers@, head),
                    nodes@.len() == start_len + idx,
                    queue@ =~= Seq::new((nodes@.len() - head - 1) as nat, |i: int| (head + 1 + i) as usize),
                    forall|k: int|
                        0 <= k < nodes@.len() ==> #[trigger] nodes@[k].addr == built_addr(root, peers@, k)
                            && nodes@[k].parent == built_parent(root, peers@, b, k),
                    forall|k: int| 0 <= k < head ==> #[trigger] nodes@[k].children@ == built_children(peers@, b, k),
                    nodes@[head].children@ =~= peers@.subrange(peer_idx as int, peer_idx + idx),
                    forall|k: int| head < k < nodes@.len() ==> #[trigger] nodes@[k].children@.len() == 0,
                decreases count - idx,
            {
                let child_addr = peers[peer_idx + idx];
                let child_pos = nodes.len();
                proof {
                    lemma_fundamental_div_mod_converse(child_pos - 1, b, head, idx as int);
                }
                nodes.push(TreeNode { addr: child_addr, children: Vec::new(), parent: Some(parent_addr) });
                nodes[parent_pos].children.push(child_addr);
                queue.push_back(child_pos);
                idx += 1;
            }
            proof {
                lemma_mul_succ(head, b);
                head = head + 1;
            }
            peer_idx += count;
        }
        proof {
            assert forall|k: int| head <= k < nodes@.len() implies #[trigger] nodes@[k].children@ == built_children(peers@, b, k) by {
                lemma_mul_inequality(head, k, b);
            }
            let target = build_spec(root, peers@, branching_factor);
            let got = view_nodes(nodes@);
            assert forall|k: int| 0 <= k < got.len() implies #[trigger] got[k] == target.nodes[k] by {
                assert(nodes@[k].addr == built_addr(root, peers@, k));
            }
            assert(got =~= target.nodes);
        }
        DistributionTree { root, nodes }
    }

    /// Takes the failed node out of the tree and returns its children, which
    /// are left without a parent.
    pub fn remove_node(&mut self, failed: PeerAddr) -> (orphans: Vec<PeerAddr>)
        ensures
            orphans@ == orphans_of(old(self)@.nodes, failed),
            final(self)@ == remove_spec(old(self)@, failed),
    {
        let ghost old_nodes = self@.nodes;
        let mut orphans: Vec<PeerAddr> = Vec::new();
        let mut i: usize = 0;
        while i < self.nodes.len()
            invariant
                0 <= i <= self.nodes.len(),
                old_nodes == self@.nodes,
                orphans@ == orphans_of(old_nodes.take(i as int), failed),
            decreases self.nodes.len() - i,
        {
            assert(old_nodes.take(i + 1).drop_last() =~= old_nodes.take(i as int));
            if self.nodes[i].addr == failed {
                let ghost before = orphans@;
                let mut c: usize = 0;
                while c < self.nodes[i].children.len()
                    invariant
                        0 <= c <= self.nodes[i as int].children.len(),
                        i < self.nodes.len(),
                        orphans@ =~= before + self.nodes[i as int].children@.take(c as int),
                    decreases self.nodes[i as int].children.len() - c,
                {
                    orphans.push(self.nodes[i].children[c]);
                    c += 1;
                }
                assert(self.nodes[i as int].children@.take(c as int) =~= self.nodes[i as int].children@);
            }
            i += 1;
        }
        assert(old_nodes.take(i as int) =~= old_nodes);

        let ghost stripped = stripped_nodes(old_nodes, failed);
        let mut kept: Vec<TreeNode> = Vec::new();
        let mut j: usize = 0;
        while j < self.nodes.len()
            invariant
                0 <= j <= self.nodes.len(),
                old_nodes == self@.nodes,
                view_nodes(kept@) =~= old_nodes.take(j as int).filter(other_node(failed)).map_values(
                    |n: NodeView| strip_child(n, failed),
                ),
            decreases self.nodes.len() - j,
        {
            proof {
                assert(old_nodes.take(j + 1) =~= old_nodes.take(j as int).push(old_nodes[j as int]));
                old_nodes.take(j as int).lemma_filter_push(old_nodes[j as int], other_node(failed));
            }
            let ghost prev = view_nodes(kept@);
            let ghost f = |n: NodeView| strip_child(n, failed);
            let ghost filt = old_nodes.take(j as int).filter(other_node(failed));
            assert(old_nodes[j as int] == self.nodes@[j as int]@);
            if self.nodes[j].addr != failed {
                let children = without(&self.nodes[j].children, failed);
                kept.push(TreeNode { addr: self.nodes[j].addr, children, parent: self.nodes[j].parent });
                assert(view_nodes(kept@) =~= prev.push(strip_child(old_nodes[j as int], failed)));
                assert(filt.push(old_nodes[j as int]).map_values(f) =~= filt.map_values(f).push(f(old_nodes[j as int])));
            }
            j += 1;
        }
        assert(old_nodes.take(j as int) =~= old_nodes);
        self.nodes = kept;
        assert(self@.nodes == stripped);

        let mut k: usize = 0;
        while k < orphans.len()
            invariant
                0 <= k <= orphans.len(),
                orphans@ == orphans_of(old_nodes, failed),
                stripped == stripped_nodes(old_nodes, failed),
                self@.root == old(self)@.root,
                self@.nodes =~= detach_all(stripped, orphans@.take(k as int)),
            decreases orphans.len() - k,
        {
            let ghost cur = self@.nodes;
            let o = orphans[k];
            proof {
                assert forall|x: int| 0 <= x < stripped.len() implies #[trigger] cur[x].addr == stripped[x].addr by {}
            }
            let pos = self.position_of(o);
            if let Some(p) = pos {
                self.nodes[p].parent = None;
            }
            proof {
                let o1 = orphans@.take(k + 1);
                let o0 = orphans@.take(k as int);
                assert(o1 =~= o0.push(o));
                assert forall|x: int| 0 <= x < stripped.len() implies #[trigger] self@.nodes[x] == detached_node(stripped, o1, x) by {
                    let a = stripped[x].addr;
                    lemma_first_same_addrs(cur, stripped, a, x);
                    lemma_first_same_addrs(cur, stripped, o, x);
                    assert(o1.contains(a) <==> (o0.contains(a) || a == o)) by {
                        if o1.contains(a) {
                            let w = choose|w: int| 0 <= w < o1.len() && o1[w] == a;
                            if w < k {
                                assert(o0[w] == a);
                            }
                        }
                        if o0.contains(a) {
                            let w = choose|w: int| 0 <= w < o0.len() && o0[w] == a;
                            assert(o1[w] == a);
                        }
                        if a == o {
                            assert(o1[k as int] == a);
                        }
                    }
                    if let Some(p) = pos {
                        if x == p {
                            lemma_first_same_addrs(cur, stripped, o, p as int);
                        }
                    }
                }
            }
            k += 1;
        }
        assert(orphans@.take(k as int) =~= orphans@);
        orphans
    }

    /// Removes the failed node and reattaches each of its children, in
    /// order, to the least loaded node other than the root (to the root
    /// when there is no other node).
    pub fn heal(&mut self, failed: PeerAddr)
        ensures
            final(self)@ == heal_spec(old(self)@, failed),
    {
        let ghost t0 = old(self)@;
        let orphans = self.remove_node(failed);
        assert(orphans@.skip(0) =~= orphans@);
        let mut k: usize = 0;
        while k < orphans.len()
            invariant
                0 <= k <= orphans.len(),
                orphans@ == orphans_of(t0.nodes, failed),
                reattach_all(self@, orphans@.skip(k as int)) == heal_spec(t0, failed),
            decreases orphans.len() - k,
        {
            let orphan = orphans[k];
            let new_parent = match self.find_least_loaded_node() {
                Some(a) => a,
                None => self.root,
            };
            proof {
                assert(orphans@.skip(k as int).drop_first() =~= orphans@.skip(k + 1));
            }
            self.reattach(orphan, new_parent);
            k += 1;
        }
        assert(orphans@.skip(k as int) =~= Seq::<PeerAddr>::empty());
    }

    /// The first node whose address is `addr`.
    pub fn find_node(&self, addr: PeerAddr) -> (r: Option<&TreeNode>)
        ensures
            r is Some <==> has_node(self@.nodes, addr),
            r matches Some(n) ==> exists|i: int| is_first_at(self@.nodes, addr, i) && n@ == self@.nodes[i],
    {
        let mut i: usize = 0;
        while i < self.nodes.len()
            invariant
                0 <= i <= self.nodes.len(),
                forall|j: int| 0 <= j < i ==> #[trigger] self@.nodes[j].addr != addr,
            decreases self.nodes.len() - i,
        {
            if self.nodes[i].addr == addr {
                assert(is_first_at(self@.nodes, addr, i as int));
                return Some(&self.nodes[i]);
            }
            i += 1;
        }
        None
    }

    /// Position of the first node whose address is `addr`.
    fn position_of(&self, addr: PeerAddr) -> (r: Option<usize>)
        ensures
            r is Some <==> has_node(self@.nodes, addr),
            r matches Some(i) ==> is_first_at(self@.nodes, addr, i as int),
            r is None ==> forall|j: int| 0 <= j < self@.nodes.len() ==> #[trigger] self@.nodes[j].addr != addr,
    {
        let mut i: usize = 0;
        while i < self.nodes.len()
            invariant
                0 <= i <= self.nodes.len(),
                forall|j: int| 0 <= j < i ==> #[trigger] self@.nodes[j].addr != addr,
            decreases self.nodes.len() - i,
        {
            if self.nodes[i].addr == addr {
                assert(is_first_at(self@.nodes, addr, i as int));
                return Some(i);
            }
            i += 1;
        }
        None
    }

    /// Makes `new_parent` the parent of `orphan`: the first node named
    /// `new_parent` lists `orphan` among its children (once), and the first
    /// node named `orphan` records `new_parent` as its parent.
    pub fn reattach(&mut self, orphan: PeerAddr, new_parent: PeerAddr)
        ensures
            final(self)@ == reattach_spec(old(self)@, orphan, new_parent),
    {
        let ghost t0 = self@;
        if let Some(p) = self.position_of(new_parent) {
            if !vec_contains(&self.nodes[p].children, orphan) {
                self.nodes[p].children.push(orphan);
            }
        }
        let ghost t1 = self@;
        assert(t1.nodes.len() == t0.nodes.len());
        assert(forall|i: int| 0 <= i < t0.nodes.len() ==> #[trigger] t1.nodes[i].addr == t0.nodes[i].addr);
        if let Some(c) = self.position_of(orphan) {
            self.nodes[c].parent = Some(new_parent);
        }
        proof {
            let target = reattach_spec(t0, orphan, new_parent);
            assert forall|i: int| 0 <= i < t0.nodes.len() implies #[trigger] self@.nodes[i] == target.nodes[i] by {
                lemma_first_same_addrs(t1.nodes, t0.nodes, orphan, i);
            }
            assert(self@.nodes =~= target.nodes);
        }
    }

    /// The least loaded node other than the root: the first, in node order,
    /// of those with the fewest children.
    pub fn find_least_loaded_node(&self) -> (r: Option<PeerAddr>)
        ensures
            r == least_loaded(self@.nodes, self@.root),
            r is None <==> forall|j: int| 0 <= j < self@.nodes.len() ==> #[trigger] self@.nodes[j].addr == self@.root,
            r matches Some(a) ==> a != self@.root,
    {
        let ghost nodes = self@.nodes;
        let mut best: Option<usize> = None;
        let mut i: usize = 0;
        while i < self.nodes.len()
            invariant
                0 <= i <= self.nodes.len(),
                nodes == self@.nodes,
                best is None ==> forall|j: int| 0 <= j < i ==> #[trigger] nodes[j].addr == self.root,
                best matches Some(b) ==> {
                    &&& b < i
                    &&& nodes[b as int].addr != self.root
                    &&& forall|j: int| 0 <= j < i && #[trigger] nodes[j].addr != self.root
                        ==> nodes[b as int].children.len() <= nodes[j].children.len()
                    &&& forall|j: int| 0 <= j < b && #[trigger] nodes[j].addr != self.root
                        ==> nodes[b as int].children.len() < nodes[j].children.len()
                },
            decreases self.nodes.len() - i,
        {
            if self.nodes[i].addr != self.root {
                match best {
                    None => {
                        best = Some(i);
                    },
                    Some(b) => {
                        if self.nodes[i].children.len() < self.nodes[b].children.len() {
                            best = Some(i);
                        }
                    },
                }
            }
            i += 1;
        }
        match best {
            None => {
                proof {
                    if exists|k: int| is_least_loaded_at(nodes, self.root, k) {
                        let k = choose|k: int| is_least_loaded_at(nodes, self.root, k);
                        assert(nodes[k].addr == self.root);
                    }
                }
                None
            },
            Some(b) => {
                proof {
                    assert(is_least_loaded_at(nodes, self.root, b as int));
                    let k = choose|k: int| is_least_loaded_at(nodes, self.root, k);
                    lemma_least_unique(nodes, self.root, b as int, k);
                }
                Some(self.nodes[b].addr)
            },
        }
    }
}

/// `v` without any occurrence of `x`.
fn without(v: &Vec<PeerAddr>, x: PeerAddr) -> (r: Vec<PeerAddr>)
    ensures
        r@ == v@.filter(other_addr(x)),
{
    let mut r: Vec<PeerAddr> = Vec::new();
    let mut i: usize = 0;
    while i < v.len()
        invariant
            0 <= i <= v.len(),
            r@ == v@.take(i as int).filter(other_addr(x)),
        decreases v.len() - i,
    {
        proof {
            assert(v@.take(i + 1) =~= v@.take(i as int).push(v@[i as int]));
            v@.take(i as int).lemma_filter_push(v@[i as int], other_addr(x));
        }
        if v[i] != x {
            r.push(v[i]);
        }
        i += 1;
    }
    assert(v@.take(i as int) =~= v@);
    r
}

/// `v` lists `x`.
fn vec_contains(v: &Vec<PeerAddr>, x: PeerAddr) -> (r: bool)
    ensures
        r == v@.contains(x),
{
    let mut i: usize = 0;
    while i < v.len()
        invariant
            0 <= i <= v.len(),
            forall|j: int| 0 <= j < i ==> v@[j] != x,
        decreases v.len() - i,
    {
        if v[i] == x {
            assert(v@[i as int] == x);
            return true;
        }
        i += 1;
    }
    false
}

} // verus!
