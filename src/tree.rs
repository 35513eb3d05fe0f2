//! The parsed device tree as the library sees it, the fixed table from
//! `compatible` strings to drivers, and the pre-order walk that decides
//! which driver probes each node.

use vstd::prelude::*;

verus! {

/// A node of a parsed device tree: its name, its `compatible` property when
/// that reads as a string, and its children in the order the blob lists them.
#[derive(Debug)]
pub struct DeviceNode {
    pub name: String,
    pub compatible: Option<String>,
    pub children: Vec<DeviceNode>,
}

/// The drivers that the dispatch table knows.
#[derive(Clone, Copy, Debug, PartialEq, Eq, Structural)]
pub enum Driver {
    /// The virtio-mmio transport, for `compatible = "virtio,mmio"`.
    VirtioMmio,
    /// The 16550A-compatible UART, for `compatible = "ns16550a"`.
    Ns16550a,
}

/// One step of the walk: the node reached by following child indices `path`
/// from the root, its name, and the driver to probe it with, if any.
#[derive(Debug)]
pub struct Visit {
    pub path: Vec<usize>,
    pub name: String,
    pub driver: Option<Driver>,
}

/// What a visit records, as plain values.
pub struct VisitModel {
    pub path: Seq<usize>,
    pub name: Seq<char>,
    pub driver: Option<Driver>,
}

/// The model of an executed visit.
pub open spec fn visit_model(v: Visit) -> VisitModel {
    VisitModel { path: v.path@, name: v.name@, driver: v.driver }
}

/// The models of a sequence of visits.
pub open spec fn visits_model(vs: Seq<Visit>) -> Seq<VisitModel> {
    vs.map_values(|v: Visit| visit_model(v))
}

/// The dispatch table: exact matches only, no prefixes or lists.
pub open spec fn driver_for(compatible: Seq<char>) -> Option<Driver> {
    if compatible == "virtio,mmio"@ {
        Some(Driver::VirtioMmio)
    } else if compatible == "ns16550a"@ {
        Some(Driver::Ns16550a)
    } else {
        None
    }
}

/// The driver that a node is dispatched to: none without a string
/// `compatible` property.
pub open spec fn node_driver(n: DeviceNode) -> Option<Driver> {
    match n.compatible {
        Some(c) => driver_for(c@),
        None => None,
    }
}

/// What visiting node `n`, reached by `path`, records.
pub open spec fn visit_of(n: DeviceNode, path: Seq<usize>) -> VisitModel {
    VisitModel { path, name: n.name@, driver: node_driver(n) }
}

/// The visits of the subtree rooted at `n`, reached by `path`, in pre-order:
/// the node itself, then each child's subtree from left to right.
pub open spec fn preorder(n: DeviceNode, path: Seq<usize>) -> Seq<VisitModel>
    decreases n, n.children@.len() + 1,
{
    seq![visit_of(n, path)] + children_preorder(n, path, n.children@.len())
}

/// The pre-order visits of the subtrees of the first `k` children of `n`.
pub open spec fn children_preorder(n: DeviceNode, path: Seq<usize>, k: nat) -> Seq<VisitModel>
    decreases n, k,
{
    if k == 0 || k > n.children@.len() {
        Seq::empty()
    } else {
        let i = (k - 1) as int;
        children_preorder(n, path, (k - 1) as nat) + preorder(n.children@[i], path.push(i as usize))
    }
}

/// Number of nodes in the subtree rooted at `n`.
pub open spec fn node_count(n: DeviceNode) -> nat
    decreases n, n.children@.len() + 1,
{
    1 + children_count(n, n.children@.len())
}

/// Number of nodes in the subtrees of the first `k` children of `n`.
pub open spec fn children_count(n: DeviceNode, k: nat) -> nat
    decreases n, k,
{
    if k == 0 || k > n.children@.len() {
        0
    } else {
        let i = (k - 1) as int;
        children_count(n, (k - 1) as nat) + node_count(n.children@[i])
    }
}

/// The node reached from `n` by following the child indices in `path`.
pub open spec fn node_at(n: DeviceNode, path: Seq<usize>) -> Option<DeviceNode>
    decreases path.len(),
{
    if path.len() == 0 {
        Some(n)
    } else if path[0] < n.children@.len() {
        node_at(n.children@[path[0] as int], path.drop_first())
    } else {
        None
    }
}

/// `q` starts with `p`.
pub open spec fn has_prefix(q: Seq<usize>, p: Seq<usize>) -> bool {
    p.len() <= q.len() && q.subrange(0, p.len() as int) == p
}

/// Visit `v`, made in the subtree of `n` reached by `p`, records a node that
/// exists there, under its own path, name and driver.
pub open spec fn records_node_below(n: DeviceNode, p: Seq<usize>, v: VisitModel) -> bool {
    &&& has_prefix(v.path, p)
    &&& node_at(n, v.path.subrange(p.len() as int, v.path.len() as int)) matches Some(m)
    &&& v == visit_of(m, v.path)
}

/// Every visit in `vs` records a node of the subtree of `n` reached by `p`,
/// and no two visits share a path.
pub open spec fn visits_distinct_nodes(n: DeviceNode, p: Seq<usize>, vs: Seq<VisitModel>) -> bool {
    &&& forall|i: int| 0 <= i < vs.len() ==> #[trigger] records_node_below(n, p, vs[i])
    &&& forall|i: int, j: int|
        0 <= i < j < vs.len() ==> #[trigger] vs[i].path != #[trigger] vs[j].path
}

proof fn lemma_preorder_nodes(n: DeviceNode, p: Seq<usize>)
    ensures
        preorder(n, p).len() == node_count(n),
        preorder(n, p)[0] == visit_of(n, p),
        visits_distinct_nodes(n, p, preorder(n, p)),
    decreases n, n.children@.len() + 1,
{
    let k = n.children@.len();
    lemma_children_nodes(n, p, k);
    let first = seq![visit_of(n, p)];
    let rest = children_preorder(n, p, k);
    let all = preorder(n, p);
    assert(all == first + rest);
    assert(p.subrange(0, p.len() as int) =~= p);
    assert(p.subrange(p.len() as int, p.len() as int) =~= Seq::<usize>::empty());
    assert forall|i: int| 0 <= i < all.len() implies #[trigger] records_node_below(n, p, all[i]) by {
        if i > 0 {
            assert(all[i] == rest[i - 1]);
            assert(records_node_below(n, p, rest[i - 1]));
        }
    }
    assert forall|i: int, j: int| 0 <= i < j < all.len() implies #[trigger] all[i].path
        != #[trigger] all[j].path by {
        assert(all[j] == rest[j - 1]);
        assert(children_record(n, p, k, rest[j - 1]));
        if i > 0 {
            assert(all[i] == rest[i - 1]);
        }
    }
}

/// Visit `v`, made under the first `k` children of `n` reached by `p`, lies
/// strictly below `p`, under one of those children.
pub open spec fn children_record(n: DeviceNode, p: Seq<usize>, k: nat, v: VisitModel) -> bool {
    &&& v.path.len() > p.len()
    &&& v.path[p.len() as int] < k
}

proof fn lemma_children_nodes(n: DeviceNode, p: Seq<usize>, k: nat)
    requires
        k <= n.children@.len(),
    ensures
        children_preorder(n, p, k).len() == children_count(n, k),
        visits_distinct_nodes(n, p, children_preorder(n, p, k)),
        forall|i: int|
            0 <= i < children_preorder(n, p, k).len() ==> #[trigger] children_record(
                n,
                p,
                k,
                children_preorder(n, p, k)[i],
            ),
    decreases n, k,
{
    if k > 0 {
        let j = (k - 1) as int;
        assert(n.children@.len() == n.children.len());
        let c = n.children@[j];
        let q = p.push(j as usize);
        lemma_children_nodes(n, p, (k - 1) as nat);
        lemma_preorder_nodes(c, q);
        let front = children_preorder(n, p, (k - 1) as nat);
        let back = preorder(c, q);
        let all = children_preorder(n, p, k);
        assert(all == front + back);
        assert forall|i: int| 0 <= i < back.len() implies records_node_below(n, p, #[trigger] back[i])
            && children_record(n, p, k, back[i]) by {
            let v = back[i];
            assert(records_node_below(c, q, v));
            assert(v.path.subrange(0, p.len() as int) =~= q.subrange(0, p.len() as int));
            assert(q.subrange(0, p.len() as int) =~= p);
            assert(v.path[p.len() as int] == q[p.len() as int]);
            let rel = v.path.subrange(p.len() as int, v.path.len() as int);
            assert(rel.drop_first() =~= v.path.subrange(q.len() as int, v.path.len() as int));
            assert(rel[0] == j);
        }
        assert forall|i: int| 0 <= i < all.len() implies #[trigger] records_node_below(n, p, all[i])
            && children_record(n, p, k, all[i]) by {
            if i < front.len() {
                assert(all[i] == front[i]);
                assert(children_record(n, p, (k - 1) as nat, front[i]));
            } else {
                assert(all[i] == back[i - front.len()]);
            }
        }
        assert forall|i: int| 0 <= i < all.len() implies #[trigger] children_record(n, p, k, all[i]) by {
            assert(records_node_below(n, p, all[i]));
        }
        assert forall|a: int, b: int| 0 <= a < b < all.len() implies #[trigger] all[a].path
            != #[trigger] all[b].path by {
            if b < front.len() {
                assert(all[a] == front[a]);
                assert(all[b] == front[b]);
            } else if a >= front.len() {
                assert(all[a] == back[a - front.len()]);
                assert(all[b] == back[b - front.len()]);
            } else {
                assert(all[a] == front[a]);
                assert(all[b] == back[b - front.len()]);
                assert(children_record(n, p, (k - 1) as nat, front[a]));
                assert(records_node_below(c, q, back[b - front.len()]));
                assert(all[b].path[p.len() as int] == q[p.len() as int]);
            }
        }
    }
}

/// `vs` holds a visit under path `q`.
pub open spec fn visits_path(vs: Seq<VisitModel>, q: Seq<usize>) -> bool {
    exists|i: int| 0 <= i < vs.len() && #[trigger] vs[i].path == q
}

proof fn lemma_child_visits_included(n: DeviceNode, p: Seq<usize>, k: nat, j: int, q: Seq<usize>)
    requires
        0 <= j < k <= n.children@.len(),
        visits_path(preorder(n.children@[j], p.push(j as usize)), q),
    ensures
        visits_path(children_preorder(n, p, k), q),
    decreases k,
{
    let front = children_preorder(n, p, (k - 1) as nat);
    let back = preorder(n.children@[k - 1], p.push((k - 1) as usize));
    let all = children_preorder(n, p, k);
    assert(all == front + back);
    if j == k - 1 {
        let b = choose|b: int| 0 <= b < back.len() && #[trigger] back[b].path == q;
        assert(all[front.len() + b] == back[b]);
    } else {
        lemma_child_visits_included(n, p, (k - 1) as nat, j, q);
        let a = choose|a: int| 0 <= a < front.len() && #[trigger] front[a].path == q;
        assert(all[a] == front[a]);
    }
}

proof fn lemma_preorder_complete(n: DeviceNode, p: Seq<usize>, q: Seq<usize>)
    requires
        node_at(n, q) is Some,
    ensures
        visits_path(preorder(n, p), p + q),
    decreases q.len(),
{
    let pre = preorder(n, p);
    lemma_preorder_nodes(n, p);
    if q.len() == 0 {
        assert(p + q =~= p);
        assert(pre[0].path == p + q);
    } else {
        let j = q[0] as int;
        assert(n.children@.len() == n.children.len());
        let pj = p.push(j as usize);
        lemma_preorder_complete(n.children@[j], pj, q.drop_first());
        assert(pj + q.drop_first() =~= p + q);
        lemma_child_visits_included(n, p, n.children@.len(), j, p + q);
        let rest = children_preorder(n, p, n.children@.len());
        let a = choose|a: int| 0 <= a < rest.len() && #[trigger] rest[a].path == p + q;
        assert(pre[a + 1] == rest[a]);
    }
}

/// The walk of a tree visits each of its nodes exactly once: as many visits
/// as nodes, the root first, every visit recording the node found under its
/// path, no path visited twice, and every node of the tree visited.
pub proof fn lemma_walk_visits_each_node_once(root: DeviceNode)
    ensures
        preorder(root, Seq::empty()).len() == node_count(root),
        preorder(root, Seq::empty())[0] == visit_of(root, Seq::empty()),
        forall|i: int|
            #![trigger preorder(root, Seq::empty())[i]]
            0 <= i < preorder(root, Seq::empty()).len() ==> {
                let v = preorder(root, Seq::empty())[i];
                node_at(root, v.path) matches Some(m) && v == visit_of(m, v.path)
            },
        forall|i: int, j: int|
            0 <= i < j < preorder(root, Seq::empty()).len() ==> #[trigger] preorder(
                root,
                Seq::empty(),
            )[i].path != #[trigger] preorder(root, Seq::empty())[j].path,
        forall|q: Seq<usize>|
            #[trigger] node_at(root, q) is Some ==> visits_path(preorder(root, Seq::empty()), q),
{
    let pre = preorder(root, Seq::empty());
    lemma_preorder_nodes(root, Seq::empty());
    assert forall|i: int| 0 <= i < pre.len() implies {
        let v = #[trigger] pre[i];
        node_at(root, v.path) matches Some(m) && v == visit_of(m, v.path)
    } by {
        assert(records_node_below(root, Seq::empty(), pre[i]));
        assert(pre[i].path.subrange(0, pre[i].path.len() as int) =~= pre[i].path);
    }
    assert forall|q: Seq<usize>| #[trigger] node_at(root, q) is Some implies visits_path(pre, q) by {
        lemma_preorder_complete(root, Seq::empty(), q);
        assert(Seq::<usize>::empty() + q =~= q);
    }
}

/// Dispatch picks exactly one driver per recognised string: a node whose
/// `compatible` string is `"ns16550a"` goes to the UART driver alone, one
/// whose string is `"virtio,mmio"` to the virtio driver alone, and any other
/// string, or a missing one, to no driver.
pub proof fn lemma_dispatch_table(n: DeviceNode)
    ensures
        node_driver(n) == Some(Driver::Ns16550a) <==> (n.compatible matches Some(c) && c@
            == "ns16550a"@),
        node_driver(n) == Some(Driver::VirtioMmio) <==> (n.compatible matches Some(c) && c@
            == "virtio,mmio"@),
        node_driver(n) is None <==> !(n.compatible matches Some(c) && (c@ == "ns16550a"@ || c@
            == "virtio,mmio"@)),
{
    reveal_strlit("ns16550a");
    reveal_strlit("virtio,mmio");
    assert("ns16550a"@[0] != "virtio,mmio"@[0]);
}

/// A node without children whose `compatible` string is missing or matches
/// no driver is visited once, with nothing to probe, and the walk goes no
/// further below it.
pub proof fn lemma_unmatched_leaf(n: DeviceNode, p: Seq<usize>)
    requires
        n.children@.len() == 0,
        !(n.compatible matches Some(c) && (c@ == "ns16550a"@ || c@ == "virtio,mmio"@)),
    ensures
        preorder(n, p) == seq![VisitModel { path: p, name: n.name@, driver: None }],
{
    lemma_dispatch_table(n);
    assert(preorder(n, p) =~= seq![VisitModel { path: p, name: n.name@, driver: None }]);
}

/// Looks `compatible` up in the dispatch table.
pub fn match_compatible(compatible: &str) -> (r: Option<Driver>)
    ensures
        r == driver_for(compatible@),
{
    let c = compatible.to_owned();
    if c == "virtio,mmio".to_owned() {
        Some(Driver::VirtioMmio)
    } else if c == "ns16550a".to_owned() {
        Some(Driver::Ns16550a)
    } else {
        None
    }
}

/// The driver that `node` is dispatched to.
pub fn dispatch(node: &DeviceNode) -> (r: Option<Driver>)
    ensures
        r == node_driver(*node),
{
    match &node.compatible {
        Some(c) => match_compatible(c.as_str()),
        None => None,
    }
}

/// Walks the tree rooted at `root` depth-first in pre-order and returns one
/// visit per node, each with the driver that probes it.
pub fn walk(root: &DeviceNode) -> (r: Vec<Visit>)
    ensures
        visits_model(r@) == preorder(*root, Seq::empty()),
{
    let mut out: Vec<Visit> = Vec::new();
    let mut path: Vec<usize> = Vec::new();
    walk_into(root, &mut path, &mut out);
    assert(visits_model(out@) =~= visits_model(Seq::<Visit>::empty()) + preorder(*root, Seq::empty()));
    out
}

/// Appends the visits of the subtree rooted at `node`, reached by `path`.
fn walk_into(node: &DeviceNode, path: &mut Vec<usize>, out: &mut Vec<Visit>)
    ensures
        final(path)@ == old(path)@,
        visits_model(final(out)@) == visits_model(old(out)@) + preorder(*node, old(path)@),
    decreases node,
{
    let ghost path0 = path@;
    let ghost out0 = out@;
    let driver = dispatch(node);
    let here = path.clone();
    assert(here@ =~= path0);
    out.push(Visit { path: here, name: node.name.clone(), driver });
    assert(visits_model(out@) =~= visits_model(out0) + seq![visit_of(*node, path0)]);
    let mut i: usize = 0;
    while i < node.children.len()
        invariant
            i <= node.children@.len(),
            path@ == path0,
            visits_model(out@) == visits_model(out0) + seq![visit_of(*node, path0)]
                + children_preorder(*node, path0, i as nat),
        decreases node.children@.len() - i,
    {
        let ghost before = out@;
        path.push(i);
        walk_into(&node.children[i], path, out);
        path.pop();
        assert(path0.push(i) == path0.push(i as usize));
        assert(visits_model(out@) =~= visits_model(out0) + seq![visit_of(*node, path0)]
            + children_preorder(*node, path0, (i + 1) as nat));
        i += 1;
    }
    assert(visits_model(out@) =~= visits_model(out0) + preorder(*node, path0));
}

} // verus!
