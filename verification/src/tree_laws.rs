//! What holds of every distribution tree that `build`, `remove_node`,
//! `reattach` and `heal` produce.

use vstd::prelude::*;

use crate::addr::PeerAddr;
use crate::topology::{
    build_spec, detach_all, detached_node, effective_bf, has_node, heal_parent, is_least_loaded_at, heal_spec, is_first_at, lemma_first_same_addrs, min_int,
    orphans_of, other_addr, other_node, reattach_all, reattach_spec, remove_spec, strip_child, stripped_nodes,
    NodeView, TreeView,
};
use vstd::arithmetic::div_mod::lemma_fundamental_div_mod_converse;

verus! {

/// The addresses of the nodes, in node order.
pub open spec fn addrs(nodes: Seq<NodeView>) -> Seq<PeerAddr> {
    nodes.map_values(|n: NodeView| n.addr)
}

/// No address occurs twice.
pub open spec fn all_distinct(s: Seq<PeerAddr>) -> bool {
    forall|i: int, j: int| 0 <= i < s.len() && 0 <= j < s.len() && i != j ==> s[i] != s[j]
}

/// Every node other than the root's has a parent.
pub open spec fn all_attached(t: TreeView) -> bool {
    forall|i: int| 0 <= i < t.nodes.len() && #[trigger] t.nodes[i].addr != t.root ==> t.nodes[i].parent is Some
}

/// A built tree has one node per peer plus the root, and every peer has a node.
pub proof fn build_places_every_peer(root: PeerAddr, peers: Seq<PeerAddr>, branching_factor: usize)
    ensures
        build_spec(root, peers, branching_factor).nodes.len() == peers.len() + 1,
        build_spec(root, peers, branching_factor).nodes[0].addr == root,
        forall|i: int| 0 <= i < peers.len() ==> has_node(build_spec(root, peers, branching_factor).nodes, #[trigger] peers[i]),
{
    let t = build_spec(root, peers, branching_factor);
    assert forall|i: int| 0 <= i < peers.len() implies has_node(t.nodes, #[trigger] peers[i]) by {
        assert(t.nodes[i + 1].addr == peers[i]);
    }
}

/// In a built tree the root has no parent and every other node has one.
pub proof fn build_attaches_every_peer(root: PeerAddr, peers: Seq<PeerAddr>, branching_factor: usize)
    ensures
        build_spec(root, peers, branching_factor).nodes[0].parent is None,
        forall|k: int| 1 <= k < build_spec(root, peers, branching_factor).nodes.len()
            ==> (#[trigger] build_spec(root, peers, branching_factor).nodes[k]).parent is Some,
        all_attached(build_spec(root, peers, branching_factor)),
{
    let t = build_spec(root, peers, branching_factor);
    assert forall|i: int| 0 <= i < t.nodes.len() && #[trigger] t.nodes[i].addr != t.root implies t.nodes[i].parent is Some by {
        if i == 0 {
            assert(t.nodes[0].addr == root);
        }
    }
}

/// No node of a built tree has more children than the branching factor
/// (taken as one when it is zero).
pub proof fn build_respects_branching_factor(root: PeerAddr, peers: Seq<PeerAddr>, branching_factor: usize)
    ensures
        forall|k: int| 0 <= k < build_spec(root, peers, branching_factor).nodes.len()
            ==> (#[trigger] build_spec(root, peers, branching_factor).nodes[k]).children.len() <= effective_bf(branching_factor),
{
}

/// When the root and the peers are all distinct, each child listed in a
/// built tree has a node of its own, and that node names the lister as its
/// parent.
pub proof fn build_parent_child_consistent(root: PeerAddr, peers: Seq<PeerAddr>, branching_factor: usize, k: int, x: int)
    requires
        all_distinct(seq![root] + peers),
        0 <= k < build_spec(root, peers, branching_factor).nodes.len(),
        0 <= x < build_spec(root, peers, branching_factor).nodes[k].children.len(),
    ensures
        exists|m: int|
            is_first_at(build_spec(root, peers, branching_factor).nodes, build_spec(root, peers, branching_factor).nodes[k].children[x], m)
                && build_spec(root, peers, branching_factor).nodes[m].parent == Some(build_spec(root, peers, branching_factor).nodes[k].addr),
{
    let t = build_spec(root, peers, branching_factor);
    let bf = effective_bf(branching_factor);
    let all = seq![root] + peers;
    let n = peers.len() as int;
    let lo = min_int(k * bf, n);
    assert(lo == k * bf) by {
        if k * bf > n {
            assert(t.nodes[k].children.len() == 0);
        }
    }
    let m = k * bf + x + 1;
    assert(t.nodes[k].children[x] == peers[k * bf + x]);
    lemma_fundamental_div_mod_converse(m - 1, bf, k, x);
    assert(t.nodes[m].addr == peers[m - 1]);
    assert forall|j: int| 0 <= j < m implies #[trigger] t.nodes[j].addr != t.nodes[k].children[x] by {
        assert(t.nodes[j].addr == all[j]);
        assert(t.nodes[m].addr == all[m]);
    }
    assert(is_first_at(t.nodes, t.nodes[k].children[x], m));
    assert(t.nodes[m].parent == Some(t.nodes[k].addr));
}

/// In a built tree every node but the root is listed among the children of
/// its parent, node `(k - 1) / bf`, whose address it names as parent; when
/// the root and the peers are all distinct, that node is the first (the
/// only) node with that address.
pub proof fn build_parent_lists_child(root: PeerAddr, peers: Seq<PeerAddr>, branching_factor: usize, k: int)
    requires
        1 <= k <= peers.len(),
    ensures
        ({
            let nodes = build_spec(root, peers, branching_factor).nodes;
            let j = (k - 1) / effective_bf(branching_factor);
            &&& 0 <= j < k
            &&& nodes[j].children.contains(nodes[k].addr)
            &&& nodes[k].parent == Some(nodes[j].addr)
            &&& all_distinct(seq![root] + peers) ==> is_first_at(nodes, nodes[j].addr, j)
        }),
{
    let t = build_spec(root, peers, branching_factor);
    let b = effective_bf(branching_factor);
    let n = peers.len() as int;
    let j = (k - 1) / b;
    let x = (k - 1) % b;
    assert(j * b + x == k - 1) by {
        vstd::arithmetic::div_mod::lemma_fundamental_div_mod(k - 1, b);
    }
    assert(0 <= x < b) by {
        vstd::arithmetic::div_mod::lemma_mod_bound(k - 1, b);
    }
    assert(0 <= j) by {
        vstd::arithmetic::div_mod::lemma_div_pos_is_pos(k - 1, b);
    }
    assert(j * b >= j) by (nonlinear_arith)
        requires
            j >= 0,
            b >= 1,
    ;
    assert(min_int(j * b, n) == j * b);
    let ch = t.nodes[j].children;
    assert(ch[x] == peers[k - 1]);
    assert(t.nodes[k].addr == peers[k - 1]);
    if all_distinct(seq![root] + peers) {
        let all = seq![root] + peers;
        assert forall|i: int| 0 <= i < j implies #[trigger] t.nodes[i].addr != t.nodes[j].addr by {
            assert(t.nodes[i].addr == all[i]);
            assert(t.nodes[j].addr == all[j]);
        }
    }
}

/// A built tree holds a node for an address exactly when it is the root's
/// or one of the peers'.
pub proof fn build_holds_only_given_addresses(root: PeerAddr, peers: Seq<PeerAddr>, branching_factor: usize, a: PeerAddr)
    ensures
        has_node(build_spec(root, peers, branching_factor).nodes, a) <==> (a == root || peers.contains(a)),
{
    let t = build_spec(root, peers, branching_factor);
    if has_node(t.nodes, a) {
        let i = choose|i: int| 0 <= i < t.nodes.len() && #[trigger] t.nodes[i].addr == a;
        if i > 0 {
            assert(peers[i - 1] == a);
        }
    }
    if a == root {
        assert(t.nodes[0].addr == a);
    }
    if peers.contains(a) {
        let w = choose|w: int| 0 <= w < peers.len() && peers[w] == a;
        assert(t.nodes[w + 1].addr == a);
    }
}

/// The root of a built tree has no child exactly when there is no peer.
pub proof fn build_root_childless_iff_no_peers(root: PeerAddr, peers: Seq<PeerAddr>, branching_factor: usize)
    ensures
        build_spec(root, peers, branching_factor).nodes[0].children.len() == 0 <==> peers.len() == 0,
{
    let b = effective_bf(branching_factor);
    assert(0 * b == 0);
    assert(min_int(0 * b + b, peers.len() as int) >= 1 || peers.len() == 0);
}

/// Removing an address that no node has and no node lists as a child
/// changes nothing and leaves no orphan.
pub proof fn remove_absent_changes_nothing(t: TreeView, failed: PeerAddr)
    requires
        !has_node(t.nodes, failed),
        forall|i: int| 0 <= i < t.nodes.len() ==> !(#[trigger] t.nodes[i]).children.contains(failed),
    ensures
        orphans_of(t.nodes, failed) == Seq::<PeerAddr>::empty(),
        remove_spec(t, failed) == t,
{
    assert forall|i: int| 0 <= i < t.nodes.len() implies (#[trigger] t.nodes[i]).addr != failed by {
        if t.nodes[i].addr == failed {
            assert(has_node(t.nodes, failed));
        }
    }
    lemma_no_orphans(t.nodes, failed);
    assert forall|i: int| 0 <= i < t.nodes.len() implies (other_node(failed))(#[trigger] t.nodes[i]) by {}
    lemma_filter_all(t.nodes, other_node(failed));
    let s = stripped_nodes(t.nodes, failed);
    assert forall|i: int| 0 <= i < t.nodes.len() implies #[trigger] strip_child(t.nodes[i], failed) == t.nodes[i] by {
        let c = t.nodes[i].children;
        assert forall|j: int| 0 <= j < c.len() implies (other_addr(failed))(#[trigger] c[j]) by {
            if c[j] == failed {
                assert(c.contains(failed));
            }
        }
        lemma_filter_all(c, other_addr(failed));
    }
    assert(s =~= t.nodes);
    let o = orphans_of(t.nodes, failed);
    assert forall|i: int| 0 <= i < s.len() implies #[trigger] detached_node(s, o, i) == s[i] by {
        assert(!o.contains(s[i].addr));
    }
    assert(detach_all(s, o) =~= t.nodes);
}

/// Removing the same address a second time changes nothing and leaves no
/// orphan.
pub proof fn remove_twice_changes_nothing(t: TreeView, failed: PeerAddr)
    ensures
        orphans_of(remove_spec(t, failed).nodes, failed) == Seq::<PeerAddr>::empty(),
        remove_spec(remove_spec(t, failed), failed) == remove_spec(t, failed),
{
    let r = remove_spec(t, failed);
    let kept = t.nodes.filter(other_node(failed));
    let s = stripped_nodes(t.nodes, failed);
    remove_detaches_orphans(t, failed);
    assert forall|i: int| 0 <= i < r.nodes.len() implies !(#[trigger] r.nodes[i]).children.contains(failed) by {
        assert(r.nodes[i].children == s[i].children);
        assert(s[i] == strip_child(kept[i], failed));
        let c = kept[i].children;
        if c.filter(other_addr(failed)).contains(failed) {
            let j = choose|j: int| 0 <= j < c.filter(other_addr(failed)).len() && c.filter(other_addr(failed))[j] == failed;
            lemma_filter_member(c, other_addr(failed), j);
        }
    }
    remove_absent_changes_nothing(r, failed);
}

/// With distinct node addresses, `remove_node(failed)` keeps every other
/// node in order, takes `failed` out of every list of children, and clears
/// the parent of exactly the nodes it returns as orphans (the children of
/// the node named `failed`).
pub proof fn remove_node_in_full(t: TreeView, failed: PeerAddr)
    requires
        all_distinct(addrs(t.nodes)),
    ensures
        ({
            let r = remove_spec(t, failed);
            let kept = t.nodes.filter(other_node(failed));
            let o = orphans_of(t.nodes, failed);
            &&& r.root == t.root
            &&& r.nodes.len() == kept.len()
            &&& forall|i: int|
                0 <= i < kept.len() ==> #[trigger] r.nodes[i] == NodeView {
                    addr: kept[i].addr,
                    children: kept[i].children.filter(other_addr(failed)),
                    parent: if o.contains(kept[i].addr) {
                        None
                    } else {
                        kept[i].parent
                    },
                }
        }),
{
    let r = remove_spec(t, failed);
    let kept = t.nodes.filter(other_node(failed));
    let s = stripped_nodes(t.nodes, failed);
    let o = orphans_of(t.nodes, failed);
    lemma_stripped_addrs(t.nodes, failed);
    lemma_filter_distinct(addrs(t.nodes), other_addr(failed));
    assert forall|i: int| 0 <= i < kept.len() implies #[trigger] r.nodes[i] == NodeView {
        addr: kept[i].addr,
        children: kept[i].children.filter(other_addr(failed)),
        parent: if o.contains(kept[i].addr) {
            None
        } else {
            kept[i].parent
        },
    } by {
        assert(s[i] == strip_child(kept[i], failed));
        assert forall|j: int| 0 <= j < i implies #[trigger] s[j].addr != s[i].addr by {
            assert(addrs(s)[j] == s[j].addr);
            assert(addrs(s)[i] == s[i].addr);
        }
        assert(is_first_at(s, s[i].addr, i));
        assert(r.nodes[i] == detached_node(s, o, i));
    }
}

/// `reattach(orphan, new_parent)` changes nothing but two links: the first
/// node named `new_parent` gets `orphan` appended to its children (unless
/// they hold it already), and the first node named `orphan` gets
/// `new_parent` as its parent. Every other node, and every other field of
/// those two (the orphan's own children among them), stays as it was.
pub proof fn reattach_changes_only_the_links(t: TreeView, orphan: PeerAddr, new_parent: PeerAddr)
    ensures
        ({
            let r = reattach_spec(t, orphan, new_parent);
            &&& r.root == t.root
            &&& r.nodes.len() == t.nodes.len()
            &&& forall|i: int| 0 <= i < t.nodes.len() ==> (#[trigger] r.nodes[i]).addr == t.nodes[i].addr
            &&& forall|i: int|
                0 <= i < t.nodes.len() && !is_first_at(t.nodes, new_parent, i) ==> (#[trigger] r.nodes[i]).children
                    == t.nodes[i].children
            &&& forall|i: int|
                #![trigger r.nodes[i]]
                is_first_at(t.nodes, new_parent, i) ==> r.nodes[i].children == (if t.nodes[i].children.contains(
                    orphan,
                ) {
                    t.nodes[i].children
                } else {
                    t.nodes[i].children.push(orphan)
                })
            &&& forall|i: int|
                0 <= i < t.nodes.len() && !is_first_at(t.nodes, orphan, i) ==> (#[trigger] r.nodes[i]).parent
                    == t.nodes[i].parent
            &&& forall|i: int| #![trigger r.nodes[i]] is_first_at(t.nodes, orphan, i) ==> r.nodes[i].parent == Some(new_parent)
        }),
{
}

/// `heal` hangs an orphan on the least loaded node other than the root at
/// that moment (the first, in node order, among those with the fewest
/// children), and on the root only when there is no other node.
pub proof fn heal_picks_least_loaded(t: TreeView)
    ensures
        (exists|i: int| 0 <= i < t.nodes.len() && #[trigger] t.nodes[i].addr != t.root) ==> exists|k: int|
            #![trigger t.nodes[k]]
            {
                &&& 0 <= k < t.nodes.len()
                &&& heal_parent(t) == t.nodes[k].addr
                &&& t.nodes[k].addr != t.root
                &&& forall|j: int|
                    0 <= j < t.nodes.len() && #[trigger] t.nodes[j].addr != t.root ==> t.nodes[k].children.len()
                        <= t.nodes[j].children.len()
                &&& forall|j: int|
                    0 <= j < k && #[trigger] t.nodes[j].addr != t.root ==> t.nodes[k].children.len()
                        < t.nodes[j].children.len()
            },
        (forall|i: int| 0 <= i < t.nodes.len() ==> #[trigger] t.nodes[i].addr == t.root) ==> heal_parent(t) == t.root,
{
    if exists|i: int| 0 <= i < t.nodes.len() && #[trigger] t.nodes[i].addr != t.root {
        let m = lemma_least_prefix(t.nodes, t.root, t.nodes.len() as int);
        assert(is_least_loaded_at(t.nodes, t.root, m));
        let k = choose|k: int| is_least_loaded_at(t.nodes, t.root, k);
        assert(heal_parent(t) == t.nodes[k].addr);
        assert(t.nodes[k] == t.nodes[k]);
    } else {
        if exists|k: int| is_least_loaded_at(t.nodes, t.root, k) {
            let k = choose|k: int| is_least_loaded_at(t.nodes, t.root, k);
            assert(t.nodes[k].addr != t.root);
        }
    }
}

/// `heal(failed)` first removes `failed`, then takes its orphans one at a
/// time, in the order `remove_node` returns them, hanging each on the node
/// that `heal` picks at that moment (see `heal_picks_least_loaded`).
pub proof fn heal_takes_orphans_one_at_a_time(t: TreeView, failed: PeerAddr, orphans: Seq<PeerAddr>)
    ensures
        heal_spec(t, failed) == reattach_all(remove_spec(t, failed), orphans_of(t.nodes, failed)),
        orphans.len() > 0 ==> reattach_all(t, orphans) == reattach_all(
            reattach_spec(t, orphans[0], heal_parent(t)),
            orphans.drop_first(),
        ),
        orphans.len() == 0 ==> reattach_all(t, orphans) == t,
{
}

/// The node that is least loaded among the first `m`: the first of those
/// other than the root with the fewest children.
proof fn lemma_least_prefix(nodes: Seq<NodeView>, root: PeerAddr, m: int) -> (k: int)
    requires
        0 <= m <= nodes.len(),
        exists|i: int| 0 <= i < m && #[trigger] nodes[i].addr != root,
    ensures
        0 <= k < m,
        nodes[k].addr != root,
        forall|j: int| 0 <= j < m && #[trigger] nodes[j].addr != root ==> nodes[k].children.len() <= nodes[j].children.len(),
        forall|j: int| 0 <= j < k && #[trigger] nodes[j].addr != root ==> nodes[k].children.len() < nodes[j].children.len(),
    decreases m,
{
    if exists|i: int| 0 <= i < m - 1 && #[trigger] nodes[i].addr != root {
        let b = lemma_least_prefix(nodes, root, m - 1);
        if nodes[m - 1].addr != root && nodes[m - 1].children.len() < nodes[b].children.len() {
            m - 1
        } else {
            b
        }
    } else {
        m - 1
    }
}

/// With distinct addresses, `remove_node(failed)` returns exactly the
/// children of the node named `failed` (nothing when there is none), and
/// every remaining node keeps its parent unless it is one of those children.
pub proof fn remove_returns_the_failed_nodes_children(t: TreeView, failed: PeerAddr, i: int)
    requires
        all_distinct(addrs(t.nodes)),
        0 <= i < t.nodes.len(),
        t.nodes[i].addr == failed,
    ensures
        orphans_of(t.nodes, failed) == t.nodes[i].children,
        ({
            let r = remove_spec(t, failed);
            let kept = t.nodes.filter(other_node(failed));
            forall|k: int|
                0 <= k < kept.len() ==> (#[trigger] r.nodes[k]).parent == (if t.nodes[i].children.contains(kept[k].addr) {
                    None
                } else {
                    kept[k].parent
                })
        }),
{
    lemma_orphans_prefix(t.nodes, failed, i, t.nodes.len() as int);
    assert(t.nodes.take(t.nodes.len() as int) =~= t.nodes);
    remove_node_in_full(t, failed);
}

proof fn lemma_orphans_prefix(nodes: Seq<NodeView>, failed: PeerAddr, i: int, m: int)
    requires
        all_distinct(addrs(nodes)),
        0 <= i < nodes.len(),
        nodes[i].addr == failed,
        0 <= m <= nodes.len(),
    ensures
        orphans_of(nodes.take(m), failed) == (if m > i {
            nodes[i].children
        } else {
            Seq::<PeerAddr>::empty()
        }),
    decreases m,
{
    if m > 0 {
        lemma_orphans_prefix(nodes, failed, i, m - 1);
        let p = nodes.take(m);
        assert(p.drop_last() =~= nodes.take(m - 1));
        assert(p.last() == nodes[m - 1]);
        if m - 1 != i {
            assert(addrs(nodes)[m - 1] == nodes[m - 1].addr);
            assert(addrs(nodes)[i] == nodes[i].addr);
        } else {
            assert(Seq::<PeerAddr>::empty() + nodes[i].children =~= nodes[i].children);
        }
    } else {
        assert(nodes.take(0) =~= Seq::<NodeView>::empty());
    }
}

proof fn lemma_no_orphans(nodes: Seq<NodeView>, failed: PeerAddr)
    requires
        forall|i: int| 0 <= i < nodes.len() ==> (#[trigger] nodes[i]).addr != failed,
    ensures
        orphans_of(nodes, failed) == Seq::<PeerAddr>::empty(),
    decreases nodes.len(),
{
    if nodes.len() > 0 {
        let d = nodes.drop_last();
        assert forall|i: int| 0 <= i < d.len() implies (#[trigger] d[i]).addr != failed by {
            assert(d[i] == nodes[i]);
        }
        lemma_no_orphans(d, failed);
        assert(nodes.last() == nodes[nodes.len() - 1]);
    }
}

proof fn lemma_filter_all<A>(s: Seq<A>, pred: spec_fn(A) -> bool)
    requires
        forall|i: int| 0 <= i < s.len() ==> pred(#[trigger] s[i]),
    ensures
        s.filter(pred) == s,
    decreases s.len(),
{
    reveal(Seq::filter);
    if s.len() > 0 {
        let d = s.drop_last();
        assert forall|i: int| 0 <= i < d.len() implies pred(#[trigger] d[i]) by {
            assert(d[i] == s[i]);
        }
        lemma_filter_all(d, pred);
        assert(s.last() == s[s.len() - 1]);
        assert(d.push(s.last()) =~= s);
    } else {
        assert(s.filter(pred) =~= s);
    }
}

proof fn lemma_filter_distinct(s: Seq<PeerAddr>, pred: spec_fn(PeerAddr) -> bool)
    requires
        all_distinct(s),
    ensures
        all_distinct(s.filter(pred)),
    decreases s.len(),
{
    reveal(Seq::filter);
    if s.len() > 0 {
        let d = s.drop_last();
        assert(all_distinct(d)) by {
            assert forall|i: int, j: int| 0 <= i < d.len() && 0 <= j < d.len() && i != j implies d[i] != d[j] by {
                assert(d[i] == s[i] && d[j] == s[j]);
            }
        }
        lemma_filter_distinct(d, pred);
        let f = d.filter(pred);
        if pred(s.last()) {
            assert forall|j: int| 0 <= j < f.len() implies #[trigger] f[j] != s.last() by {
                lemma_filter_member(d, pred, j);
                let w = choose|w: int| 0 <= w < d.len() && d[w] == f[j];
                assert(s[w] == d[w]);
                assert(s.last() == s[s.len() - 1]);
            }
            let g = f.push(s.last());
            assert(s.filter(pred) == g);
            assert forall|i: int, j: int| 0 <= i < g.len() && 0 <= j < g.len() && i != j implies g[i] != g[j] by {
                if i < f.len() && j < f.len() {
                    assert(g[i] == f[i] && g[j] == f[j]);
                } else if i < f.len() {
                    assert(g[i] == f[i]);
                } else if j < f.len() {
                    assert(g[j] == f[j]);
                }
            }
        }
    }
}

proof fn lemma_filter_member<A>(s: Seq<A>, pred: spec_fn(A) -> bool, i: int)
    requires
        0 <= i < s.filter(pred).len(),
    ensures
        s.contains(s.filter(pred)[i]),
        pred(s.filter(pred)[i]),
    decreases s.len(),
{
    reveal(Seq::filter);
    if s.len() > 0 {
        let rest = s.drop_last().filter(pred);
        if i < rest.len() {
            lemma_filter_member(s.drop_last(), pred, i);
            let w = choose|w: int| 0 <= w < s.drop_last().len() && s.drop_last()[w] == rest[i];
            assert(s[w] == s.filter(pred)[i]);
        } else {
            assert(s[s.len() - 1] == s.filter(pred)[i]);
        }
    }
}

proof fn lemma_stripped_addrs(nodes: Seq<NodeView>, failed: PeerAddr)
    ensures
        addrs(stripped_nodes(nodes, failed)) =~= addrs(nodes).filter(other_addr(failed)),
    decreases nodes.len(),
{
    reveal(Seq::filter);
    if nodes.len() > 0 {
        let front = nodes.drop_last();
        lemma_stripped_addrs(front, failed);
        assert(addrs(nodes).drop_last() =~= addrs(front));
        let f = |n: NodeView| strip_child(n, failed);
        let fa = front.filter(other_node(failed));
        if nodes.last().addr != failed {
            assert(fa.push(nodes.last()).map_values(f) =~= fa.map_values(f).push(f(nodes.last())));
        }
    }
}

proof fn lemma_reattach_all_addrs(t: TreeView, orphans: Seq<PeerAddr>)
    ensures
        reattach_all(t, orphans).root == t.root,
        addrs(reattach_all(t, orphans).nodes) =~= addrs(t.nodes),
    decreases orphans.len(),
{
    if orphans.len() > 0 {
        let t1 = reattach_spec(t, orphans[0], heal_parent(t));
        lemma_reattach_all_addrs(t1, orphans.drop_first());
        assert(addrs(t1.nodes) =~= addrs(t.nodes));
    }
}

/// After `remove_node(failed)` no node is named `failed`, and the first node
/// of each returned orphan has no parent.
pub proof fn remove_detaches_orphans(t: TreeView, failed: PeerAddr)
    ensures
        !has_node(remove_spec(t, failed).nodes, failed),
        forall|i: int|
            0 <= i < remove_spec(t, failed).nodes.len()
                && orphans_of(t.nodes, failed).contains(#[trigger] remove_spec(t, failed).nodes[i].addr)
                && is_first_at(remove_spec(t, failed).nodes, remove_spec(t, failed).nodes[i].addr, i)
                ==> remove_spec(t, failed).nodes[i].parent is None,
{
    let r = remove_spec(t, failed);
    let s = stripped_nodes(t.nodes, failed);
    lemma_stripped_addrs(t.nodes, failed);
    if has_node(r.nodes, failed) {
        let i = choose|i: int| 0 <= i < r.nodes.len() && #[trigger] r.nodes[i].addr == failed;
        assert(addrs(s)[i] == failed);
        lemma_filter_member(addrs(t.nodes), other_addr(failed), i);
    }
    assert forall|i: int|
        0 <= i < r.nodes.len() && orphans_of(t.nodes, failed).contains(#[trigger] r.nodes[i].addr)
            && is_first_at(r.nodes, r.nodes[i].addr, i) implies r.nodes[i].parent is None by {
        lemma_first_same_addrs(r.nodes, s, r.nodes[i].addr, i);
    }
}

/// `heal(failed)` removes exactly the nodes named `failed`: the addresses
/// that remain are the former ones without `failed`, in the same order.
pub proof fn heal_keeps_other_nodes(t: TreeView, failed: PeerAddr)
    ensures
        addrs(heal_spec(t, failed).nodes) == addrs(t.nodes).filter(other_addr(failed)),
        !has_node(heal_spec(t, failed).nodes, failed),
        heal_spec(t, failed).root == t.root,
{
    let r = remove_spec(t, failed);
    let h = heal_spec(t, failed);
    lemma_stripped_addrs(t.nodes, failed);
    assert(addrs(r.nodes) =~= addrs(stripped_nodes(t.nodes, failed)));
    lemma_reattach_all_addrs(r, orphans_of(t.nodes, failed));
    if has_node(h.nodes, failed) {
        let i = choose|i: int| 0 <= i < h.nodes.len() && #[trigger] h.nodes[i].addr == failed;
        assert(addrs(h.nodes)[i] == failed);
        lemma_filter_member(addrs(t.nodes), other_addr(failed), i);
    }
}

/// Every non-root node has a parent, except possibly the first nodes of the
/// addresses still `pending`.
pub open spec fn attached_except(t: TreeView, pending: Seq<PeerAddr>) -> bool {
    forall|i: int|
        0 <= i < t.nodes.len() && #[trigger] t.nodes[i].addr != t.root && !(pending.contains(t.nodes[i].addr)
            && is_first_at(t.nodes, t.nodes[i].addr, i)) ==> t.nodes[i].parent is Some
}

proof fn lemma_reattach_all_attaches(t: TreeView, pending: Seq<PeerAddr>)
    requires
        attached_except(t, pending),
    ensures
        all_attached(reattach_all(t, pending)),
    decreases pending.len(),
{
    if pending.len() == 0 {
        assert forall|i: int| 0 <= i < t.nodes.len() && #[trigger] t.nodes[i].addr != t.root implies t.nodes[i].parent is Some by {
            assert(!pending.contains(t.nodes[i].addr));
        }
    } else {
        let o = pending[0];
        let rest = pending.drop_first();
        let t1 = reattach_spec(t, o, heal_parent(t));
        assert forall|i: int|
            0 <= i < t1.nodes.len() && #[trigger] t1.nodes[i].addr != t1.root && !(rest.contains(t1.nodes[i].addr)
                && is_first_at(t1.nodes, t1.nodes[i].addr, i)) implies t1.nodes[i].parent is Some by {
            let a = t.nodes[i].addr;
            assert forall|j: int| 0 <= j < t.nodes.len() implies #[trigger] t1.nodes[j].addr == t.nodes[j].addr by {}
            lemma_first_same_addrs(t1.nodes, t.nodes, a, i);
            lemma_first_same_addrs(t1.nodes, t.nodes, o, i);
            if !is_first_at(t.nodes, o, i) && pending.contains(a) && is_first_at(t.nodes, a, i) {
                let w = choose|w: int| 0 <= w < pending.len() && pending[w] == a;
                if w > 0 {
                    assert(rest[w - 1] == a);
                }
            }
        }
        lemma_reattach_all_attaches(t1, rest);
    }
}

/// If every node other than the root has a parent before `heal(failed)`,
/// every node other than the root has one afterwards.
pub proof fn heal_keeps_every_node_attached(t: TreeView, failed: PeerAddr)
    requires
        all_attached(t),
    ensures
        all_attached(heal_spec(t, failed)),
{
    let r = remove_spec(t, failed);
    let s = stripped_nodes(t.nodes, failed);
    let orphans = orphans_of(t.nodes, failed);
    let kept = t.nodes.filter(other_node(failed));
    let f = |n: NodeView| strip_child(n, failed);
    assert forall|i: int|
        0 <= i < r.nodes.len() && #[trigger] r.nodes[i].addr != r.root && !(orphans.contains(r.nodes[i].addr)
            && is_first_at(r.nodes, r.nodes[i].addr, i)) implies r.nodes[i].parent is Some by {
        lemma_first_same_addrs(r.nodes, s, r.nodes[i].addr, i);
        assert(s[i] == f(kept[i]));
        lemma_filter_member(t.nodes, other_node(failed), i);
        let w = choose|w: int| 0 <= w < t.nodes.len() && t.nodes[w] == kept[i];
        assert(t.nodes[w].addr != t.root);
    }
    lemma_reattach_all_attaches(r, orphans);
}

/// After `reattach(orphan, new_parent)`, the first node named `new_parent`
/// lists `orphan` as a child and the first node named `orphan` names
/// `new_parent` as its parent.
pub proof fn reattach_links_both_sides(t: TreeView, orphan: PeerAddr, new_parent: PeerAddr, p: int, c: int)
    requires
        is_first_at(t.nodes, new_parent, p),
        is_first_at(t.nodes, orphan, c),
    ensures
        reattach_spec(t, orphan, new_parent).nodes[p].children.contains(orphan),
        reattach_spec(t, orphan, new_parent).nodes[c].parent == Some(new_parent),
        reattach_spec(t, orphan, new_parent).nodes.len() == t.nodes.len(),
{
    let n = t.nodes[p];
    if !n.children.contains(orphan) {
        assert(n.children.push(orphan)[n.children.len() as int] == orphan);
    }
}

} // verus!
