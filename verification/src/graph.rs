//! The data model shared by both ordering algorithms: nodes, their
//! dependency lists, reachability, and what it means for a sequence of
//! node indices to be a valid evaluation order.

use vstd::prelude::*;

verus! {

/// Descriptor of one node output: the byte width of one element of the
/// produced tensor, and its shape when every dimension is known.
/// `shape == None` stands for a partially or fully unknown shape.
#[derive(Clone, Debug)]
pub struct Fact {
    pub datum_width: usize,
    pub shape: Option<Vec<usize>>,
}

/// One compute node: the ordered list of the indices of its producers
/// (order and duplicates matter), and a descriptor for each output.
#[derive(Clone, Debug)]
pub struct Node {
    pub inputs: Vec<usize>,
    pub outputs: Vec<Fact>,
}

/// A dependency graph with its boundary sets: the node array, the
/// indices of the model inputs (always ready, never resolved further)
/// and the indices of the model outputs (the nodes the order must reach).
#[derive(Clone, Debug)]
pub struct Graph {
    pub nodes: Vec<Node>,
    pub inputs: Vec<usize>,
    pub outputs: Vec<usize>,
}

/// The sole domain error: no evaluation order exists because a
/// dependency cycle is reachable from a requested output.
#[derive(Clone, Copy, Debug, PartialEq, Eq, Structural)]
pub enum OrderError {
    CycleDetected,
}

/// Every producer index mentioned by a node lies inside the node array.
pub open spec fn nodes_wf(nodes: Seq<Node>) -> bool {
    forall|i: int, j: int|
        0 <= i < nodes.len() && 0 <= j < nodes[i].inputs@.len() ==> (
        #[trigger] nodes[i].inputs@[j]) < nodes.len()
}

/// Every pair of an extra-dependency list lies inside the node array.
pub open spec fn extra_deps_wf(nodes: Seq<Node>, deps: Seq<(usize, usize)>) -> bool {
    forall|i: int|
        0 <= i < deps.len() ==> (#[trigger] deps[i]).0 < nodes.len() && deps[i].1 < nodes.len()
}

/// Every index of the sequence lies inside the node array.
pub open spec fn idxs_wf(nodes_len: int, xs: Seq<usize>) -> bool {
    forall|i: int| 0 <= i < xs.len() ==> (#[trigger] xs[i]) < nodes_len
}

impl Graph {
    /// A graph is well formed when every node index it mentions is dense:
    /// producer indices, input indices and output indices all lie inside
    /// the node array.
    pub open spec fn wf(self) -> bool {
        &&& nodes_wf(self.nodes@)
        &&& idxs_wf(self.nodes@.len() as int, self.inputs@)
        &&& idxs_wf(self.nodes@.len() as int, self.outputs@)
    }
}

/// The producers among `ins` whose own input list is empty (when `leaf`
/// is true) or non-empty (when `leaf` is false), in their original order.
pub open spec fn input_deps(nodes: Seq<Node>, ins: Seq<usize>, leaf: bool) -> Seq<usize>
    decreases ins.len(),
{
    if ins.len() == 0 {
        Seq::empty()
    } else {
        let rest = input_deps(nodes, ins.drop_last(), leaf);
        if (nodes[ins.last() as int].inputs@.len() == 0) == leaf {
            rest.push(ins.last())
        } else {
            rest
        }
    }
}

/// The producers that the extra-dependency list registers for consumer `n`,
/// in their original order.
pub open spec fn extra_producers(deps: Seq<(usize, usize)>, n: usize) -> Seq<usize>
    decreases deps.len(),
{
    if deps.len() == 0 {
        Seq::empty()
    } else {
        let rest = extra_producers(deps.drop_last(), n);
        if deps.last().0 == n {
            rest.push(deps.last().1)
        } else {
            rest
        }
    }
}

/// The combined, order-sensitive dependency list of node `n`: producers
/// that are themselves non-leaf first, then the extra-dependency
/// producers, then the leaf producers.
pub open spec fn deps_of(nodes: Seq<Node>, deps: Seq<(usize, usize)>, n: usize) -> Seq<usize> {
    input_deps(nodes, nodes[n as int].inputs@, false) + extra_producers(deps, n) + input_deps(
        nodes,
        nodes[n as int].inputs@,
        true,
    )
}

/// Node `a` directly depends on node `b`: `b` produces one of `a`'s
/// inputs or an extra dependency names the pair, and `a` is not a
/// declared model input (model inputs are always ready, so their
/// dependencies are never consulted).
pub open spec fn dep_edge(
    nodes: Seq<Node>,
    deps: Seq<(usize, usize)>,
    inputs: Seq<usize>,
    a: usize,
    b: usize,
) -> bool {
    &&& a < nodes.len()
    &&& !inputs.contains(a)
    &&& deps_of(nodes, deps, a).contains(b)
}

/// `b` is reachable from `a` through at most `k` direct dependency steps.
pub open spec fn reaches(
    nodes: Seq<Node>,
    deps: Seq<(usize, usize)>,
    inputs: Seq<usize>,
    k: nat,
    a: usize,
    b: usize,
) -> bool
    decreases k,
{
    a == b || (k > 0 && exists|m: usize|
        dep_edge(nodes, deps, inputs, a, m) && reaches(
            nodes,
            deps,
            inputs,
            (k - 1) as nat,
            m,
            b,
        ))
}

/// `x` belongs to the ancestor closure of the declared outputs: some
/// output reaches it through dependency edges (every output is its own
/// ancestor).
pub open spec fn in_closure(
    nodes: Seq<Node>,
    deps: Seq<(usize, usize)>,
    inputs: Seq<usize>,
    outputs: Seq<usize>,
    x: usize,
) -> bool {
    exists|oi: int, k: nat|
        0 <= oi < outputs.len() && reaches(nodes, deps, inputs, k, outputs[oi], x)
}

/// Some directed dependency cycle is reachable from a declared output.
pub open spec fn has_reachable_cycle(
    nodes: Seq<Node>,
    deps: Seq<(usize, usize)>,
    inputs: Seq<usize>,
    outputs: Seq<usize>,
) -> bool {
    exists|x: usize, m: usize, k: nat|
        in_closure(nodes, deps, inputs, outputs, x) && dep_edge(nodes, deps, inputs, x, m)
            && reaches(nodes, deps, inputs, k, m, x)
}

/// Every dependency of every element of `order` appears at a strictly
/// earlier position of `order`.
pub open spec fn respects_deps(
    nodes: Seq<Node>,
    deps: Seq<(usize, usize)>,
    inputs: Seq<usize>,
    order: Seq<usize>,
) -> bool {
    forall|k: int, d: usize|
        0 <= k < order.len() && #[trigger] dep_edge(nodes, deps, inputs, order[k], d)
            ==> exists|k2: int| 0 <= k2 < k && order[k2] == d
}

/// A valid evaluation order: a duplicate-free permutation of exactly the
/// ancestor closure of the declared outputs, in which every producer
/// precedes all of its consumers.
pub open spec fn valid_order(
    nodes: Seq<Node>,
    deps: Seq<(usize, usize)>,
    inputs: Seq<usize>,
    outputs: Seq<usize>,
    order: Seq<usize>,
) -> bool {
    &&& order.no_duplicates()
    &&& forall|k: int|
        0 <= k < order.len() ==> in_closure(nodes, deps, inputs, outputs, #[trigger] order[k])
    &&& forall|x: usize| in_closure(nodes, deps, inputs, outputs, x) ==> order.contains(x)
    &&& respects_deps(nodes, deps, inputs, order)
}

/// Membership in a filtered producer list: exactly the producers of the
/// requested kind that occur in `ins`.
pub proof fn lemma_input_deps_membership(nodes: Seq<Node>, ins: Seq<usize>, leaf: bool, p: usize)
    ensures
        input_deps(nodes, ins, leaf).contains(p) <==> (ins.contains(p) && (nodes[p as int].inputs@.len() == 0) == leaf),
    decreases ins.len(),
{
    if ins.len() > 0 {
        lemma_input_deps_membership(nodes, ins.drop_last(), leaf, p);
        assert(ins.drop_last().contains(p) ==> ins.contains(p)) by {
            if ins.drop_last().contains(p) {
                let j = choose|j: int| 0 <= j < ins.drop_last().len() && ins.drop_last()[j] == p;
                assert(ins[j] == p);
            }
        }
        if ins.contains(p) && (nodes[p as int].inputs@.len() == 0) == leaf {
            let j = choose|j: int| 0 <= j < ins.len() && ins[j] == p;
            if j < ins.len() - 1 {
                assert(ins.drop_last()[j] == p);
            }
            let r = input_deps(nodes, ins, leaf);
            if (nodes[ins.last() as int].inputs@.len() == 0) == leaf {
                let rest = input_deps(nodes, ins.drop_last(), leaf);
                assert(r == rest.push(ins.last()));
                if j == ins.len() - 1 {
                    assert(r[r.len() - 1] == p);
                } else {
                    let jj = choose|jj: int| 0 <= jj < rest.len() && rest[jj] == p;
                    assert(r[jj] == p);
                }
            }
        }
        if input_deps(nodes, ins, leaf).contains(p) {
            let r = input_deps(nodes, ins, leaf);
            let rest = input_deps(nodes, ins.drop_last(), leaf);
            if (nodes[ins.last() as int].inputs@.len() == 0) == leaf {
                let j = choose|j: int| 0 <= j < r.len() && r[j] == p;
                if j < rest.len() {
                    assert(rest[j] == p);
                } else {
                    assert(p == ins.last());
                    assert(ins[ins.len() - 1] == p);
                }
            }
        }
    }
}

/// Membership in the extra-producer list of `n`: exactly the producers
/// that the extra-dependency list pairs with consumer `n`.
pub proof fn lemma_extra_producers_membership(deps: Seq<(usize, usize)>, n: usize, p: usize)
    ensures
        extra_producers(deps, n).contains(p) <==> exists|j: int|
            0 <= j < deps.len() && #[trigger] deps[j] == (n, p),
    decreases deps.len(),
{
    if deps.len() > 0 {
        lemma_extra_producers_membership(deps.drop_last(), n, p);
        let r = extra_producers(deps, n);
        let rest = extra_producers(deps.drop_last(), n);
        if exists|j: int| 0 <= j < deps.drop_last().len() && #[trigger] deps.drop_last()[j] == (n, p) {
            let j = choose|j: int| 0 <= j < deps.drop_last().len() && #[trigger] deps.drop_last()[j] == (n, p);
            assert(deps[j] == (n, p));
        }
        if exists|j: int| 0 <= j < deps.len() && #[trigger] deps[j] == (n, p) {
            let j = choose|j: int| 0 <= j < deps.len() && #[trigger] deps[j] == (n, p);
            if j < deps.len() - 1 {
                assert(deps.drop_last()[j] == (n, p));
                let jj = choose|jj: int| 0 <= jj < rest.len() && rest[jj] == p;
                if deps.last().0 == n {
                    assert(r == rest.push(deps.last().1));
                }
                assert(r[jj] == p);
            } else {
                assert(deps.last() == (n, p));
                assert(r[r.len() - 1] == p);
            }
        }
        if r.contains(p) {
            let j = choose|j: int| 0 <= j < r.len() && r[j] == p;
            if deps.last().0 == n {
                assert(r == rest.push(deps.last().1));
                if j < rest.len() {
                    assert(rest[j] == p);
                } else {
                    assert(deps[deps.len() - 1] == (n, p));
                }
            } else {
                assert(rest[j] == p);
            }
        }
    }
}

/// Membership in the combined dependency list: exactly the producers of
/// `n`'s inputs together with the extra-dependency producers of `n`.
pub proof fn lemma_deps_of_membership(
    nodes: Seq<Node>,
    deps: Seq<(usize, usize)>,
    n: usize,
    p: usize,
)
    requires
        n < nodes.len(),
    ensures
        deps_of(nodes, deps, n).contains(p) <==> (nodes[n as int].inputs@.contains(p) || exists|j: int|
            0 <= j < deps.len() && #[trigger] deps[j] == (n, p)),
{
    lemma_input_deps_membership(nodes, nodes[n as int].inputs@, false, p);
    lemma_input_deps_membership(nodes, nodes[n as int].inputs@, true, p);
    lemma_extra_producers_membership(deps, n, p);
    let a = input_deps(nodes, nodes[n as int].inputs@, false);
    let b = extra_producers(deps, n);
    let c = input_deps(nodes, nodes[n as int].inputs@, true);
    assert(deps_of(nodes, deps, n).contains(p) <==> (a.contains(p) || b.contains(p) || c.contains(
        p,
    ))) by {
        let r = deps_of(nodes, deps, n);
        if r.contains(p) {
            let j = choose|j: int| 0 <= j < r.len() && r[j] == p;
            if j < a.len() {
                assert(a[j] == p);
            } else if j < a.len() + b.len() {
                assert(b[j - a.len()] == p);
            } else {
                assert(c[j - a.len() - b.len()] == p);
            }
        }
        if a.contains(p) {
            let j = choose|j: int| 0 <= j < a.len() && a[j] == p;
            assert(r[j] == p);
        }
        if b.contains(p) {
            let j = choose|j: int| 0 <= j < b.len() && b[j] == p;
            assert(r[a.len() + j] == p);
        }
        if c.contains(p) {
            let j = choose|j: int| 0 <= j < c.len() && c[j] == p;
            assert(r[a.len() + b.len() + j] == p);
        }
    }
}

/// Under a well-formed graph, every entry of a combined dependency list
/// is itself a valid node index.
pub proof fn lemma_deps_of_wf(nodes: Seq<Node>, deps: Seq<(usize, usize)>, n: usize)
    requires
        nodes_wf(nodes),
        extra_deps_wf(nodes, deps),
        n < nodes.len(),
    ensures
        forall|i: int|
            0 <= i < deps_of(nodes, deps, n).len() ==> (#[trigger] deps_of(nodes, deps, n)[i])
                < nodes.len(),
{
    assert forall|i: int| 0 <= i < deps_of(nodes, deps, n).len() implies (#[trigger] deps_of(
        nodes,
        deps,
        n,
    )[i]) < nodes.len() by {
        let p = deps_of(nodes, deps, n)[i];
        assert(deps_of(nodes, deps, n).contains(p));
        lemma_deps_of_membership(nodes, deps, n, p);
        if nodes[n as int].inputs@.contains(p) {
            let j = choose|j: int|
                0 <= j < nodes[n as int].inputs@.len() && nodes[n as int].inputs@[j] == p;
            assert(nodes[n as int].inputs@[j] < nodes.len());
        }
    }
}

/// One more dependency step extends reachability.
pub proof fn lemma_reaches_extend(
    nodes: Seq<Node>,
    deps: Seq<(usize, usize)>,
    inputs: Seq<usize>,
    k: nat,
    a: usize,
    b: usize,
    c: usize,
)
    requires
        reaches(nodes, deps, inputs, k, a, b),
        dep_edge(nodes, deps, inputs, b, c),
    ensures
        reaches(nodes, deps, inputs, k + 1, a, c),
    decreases k,
{
    if a == b {
        assert(reaches(nodes, deps, inputs, k, c, c));
        assert(dep_edge(nodes, deps, inputs, a, c) && reaches(nodes, deps, inputs, k, c, c));
    } else {
        let m = choose|m: usize|
            dep_edge(nodes, deps, inputs, a, m) && reaches(
                nodes,
                deps,
                inputs,
                (k - 1) as nat,
                m,
                b,
            );
        lemma_reaches_extend(nodes, deps, inputs, (k - 1) as nat, m, b, c);
        assert(dep_edge(nodes, deps, inputs, a, m) && reaches(nodes, deps, inputs, k, m, c));
    }
}

/// A chain of consecutive dependency edges is a reachability witness.
pub proof fn lemma_path_reaches(
    nodes: Seq<Node>,
    deps: Seq<(usize, usize)>,
    inputs: Seq<usize>,
    p: Seq<usize>,
)
    requires
        p.len() >= 1,
        forall|l: int| 0 <= l < p.len() - 1 ==> dep_edge(nodes, deps, inputs, #[trigger] p[l], p[l + 1]),
    ensures
        reaches(nodes, deps, inputs, (p.len() - 1) as nat, p[0], p.last()),
    decreases p.len(),
{
    if p.len() > 1 {
        let q = p.drop_last();
        lemma_path_reaches(nodes, deps, inputs, q);
        assert(dep_edge(nodes, deps, inputs, p[p.len() - 2], p[p.len() - 1]));
        lemma_reaches_extend(
            nodes,
            deps,
            inputs,
            (p.len() - 2) as nat,
            p[0],
            p[p.len() - 2],
            p.last(),
        );
    }
}

/// If a node belongs to the closure, so does each of its dependencies.
pub proof fn lemma_in_closure_step(
    nodes: Seq<Node>,
    deps: Seq<(usize, usize)>,
    inputs: Seq<usize>,
    outputs: Seq<usize>,
    x: usize,
    m: usize,
)
    requires
        in_closure(nodes, deps, inputs, outputs, x),
        dep_edge(nodes, deps, inputs, x, m),
    ensures
        in_closure(nodes, deps, inputs, outputs, m),
{
    let (oi, k): (int, nat) = choose|oi: int, k: nat|
        0 <= oi < outputs.len() && reaches(nodes, deps, inputs, k, outputs[oi], x);
    lemma_reaches_extend(nodes, deps, inputs, k, outputs[oi], x, m);
    assert(0 <= oi < outputs.len() && reaches(nodes, deps, inputs, k + 1, outputs[oi], m));
}

/// An order whose every element drags its dependencies in contains every
/// node reachable from any of its elements.
pub proof fn lemma_reach_in_order(
    nodes: Seq<Node>,
    deps: Seq<(usize, usize)>,
    inputs: Seq<usize>,
    order: Seq<usize>,
    k: nat,
    a: usize,
    b: usize,
)
    requires
        respects_deps(nodes, deps, inputs, order),
        order.contains(a),
        reaches(nodes, deps, inputs, k, a, b),
    ensures
        order.contains(b),
    decreases k,
{
    if a != b {
        let m = choose|m: usize|
            dep_edge(nodes, deps, inputs, a, m) && reaches(
                nodes,
                deps,
                inputs,
                (k - 1) as nat,
                m,
                b,
            );
        let ka = order.lemma_contains_to_index(a);
        assert(dep_edge(nodes, deps, inputs, order[ka], m));
        let k2 = choose|k2: int| 0 <= k2 < ka && order[k2] == m;
        assert(order.contains(m));
        lemma_reach_in_order(nodes, deps, inputs, order, (k - 1) as nat, m, b);
    }
}

/// In an order that respects dependencies, whatever a node reaches sits
/// at or before that node's own position.
proof fn lemma_reach_position(
    nodes: Seq<Node>,
    deps: Seq<(usize, usize)>,
    inputs: Seq<usize>,
    order: Seq<usize>,
    k: nat,
    a: usize,
    b: usize,
    pa: int,
) -> (pb: int)
    requires
        respects_deps(nodes, deps, inputs, order),
        0 <= pa < order.len(),
        order[pa] == a,
        reaches(nodes, deps, inputs, k, a, b),
    ensures
        0 <= pb <= pa && order[pb] == b,
    decreases k,
{
    if a == b {
        pa
    } else {
        let m = choose|m: usize|
            dep_edge(nodes, deps, inputs, a, m) && reaches(
                nodes,
                deps,
                inputs,
                (k - 1) as nat,
                m,
                b,
            );
        assert(dep_edge(nodes, deps, inputs, order[pa], m));
        let k2 = choose|k2: int| 0 <= k2 < pa && order[k2] == m;
        lemma_reach_position(nodes, deps, inputs, order, (k - 1) as nat, m, b, k2)
    }
}

/// No dependency cycle can run through any element of a valid order:
/// once a node is placed after all of its ancestors, a cycle back to it
/// would need a strictly earlier copy of it.
pub proof fn lemma_valid_order_acyclic(
    nodes: Seq<Node>,
    deps: Seq<(usize, usize)>,
    inputs: Seq<usize>,
    outputs: Seq<usize>,
    order: Seq<usize>,
)
    requires
        valid_order(nodes, deps, inputs, outputs, order),
    ensures
        forall|x: usize, m: usize, k: nat|
            #![trigger dep_edge(nodes, deps, inputs, x, m), reaches(nodes, deps, inputs, k, m, x)]
            order.contains(x) && dep_edge(nodes, deps, inputs, x, m) ==> !reaches(
                nodes,
                deps,
                inputs,
                k,
                m,
                x,
            ),
{
    assert forall|x: usize, m: usize, k: nat|
        order.contains(x) && dep_edge(nodes, deps, inputs, x, m) implies !reaches(
        nodes,
        deps,
        inputs,
        k,
        m,
        x,
    ) by {
        if reaches(nodes, deps, inputs, k, m, x) {
            let px = order.lemma_contains_to_index(x);
            assert(dep_edge(nodes, deps, inputs, order[px], m));
            let pm = choose|pm: int| 0 <= pm < px && order[pm] == m;
            let px2 = lemma_reach_position(nodes, deps, inputs, order, k, m, x, pm);
            assert(order[px2] == order[px]);
            assert(px2 != px ==> order[px2] != order[px]);
        }
    }
}

/// Cycle detection is forced, not optional: when any dependency cycle
/// is reachable from a declared output, no valid order exists at all,
/// so an ordering function that promises a valid order on success can
/// only fail on such a graph.
pub proof fn lemma_valid_order_excludes_cycles(
    nodes: Seq<Node>,
    deps: Seq<(usize, usize)>,
    inputs: Seq<usize>,
    outputs: Seq<usize>,
    order: Seq<usize>,
)
    requires
        valid_order(nodes, deps, inputs, outputs, order),
    ensures
        !has_reachable_cycle(nodes, deps, inputs, outputs),
{
    if has_reachable_cycle(nodes, deps, inputs, outputs) {
        let (x, m, k): (usize, usize, nat) = choose|x: usize, m: usize, k: nat|
            in_closure(nodes, deps, inputs, outputs, x) && dep_edge(nodes, deps, inputs, x, m)
                && reaches(nodes, deps, inputs, k, m, x);
        assert(order.contains(x));
        lemma_valid_order_acyclic(nodes, deps, inputs, outputs, order);
    }
}

/// A finite set of indices all below `n` has at most `n` elements.
pub proof fn lemma_bounded_card(s: Set<usize>, n: int)
    requires
        s.finite(),
        0 <= n,
        forall|x: usize| s.contains(x) ==> (x as int) < n,
    ensures
        s.len() <= n,
    decreases n,
{
    if n == 0 {
        assert(s =~= Set::empty());
    } else {
        let m = (n - 1) as usize;
        let s2 = s.remove(m);
        assert(forall|x: usize| s2.contains(x) ==> (x as int) < n - 1);
        lemma_bounded_card(s2, n - 1);
    }
}

} // verus!
