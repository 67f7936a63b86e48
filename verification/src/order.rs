//! The dependency-order resolver: an iterative depth-first linearizer
//! that turns a node array, boundary sets and extra dependencies into a
//! topological order of the outputs' ancestor closure, or reports the
//! dependency cycle that makes one impossible.

use vstd::prelude::*;

use crate::bits::elems;
use crate::bits::IndexSet;
use crate::graph::dep_edge;
use crate::graph::deps_of;
use crate::graph::extra_deps_wf;
use crate::graph::extra_producers;
use crate::graph::has_reachable_cycle;
use crate::graph::idxs_wf;
use crate::graph::in_closure;
use crate::graph::input_deps;
use crate::graph::lemma_deps_of_wf;
use crate::graph::lemma_path_reaches;
use crate::graph::lemma_reach_in_order;
use crate::graph::lemma_reaches_extend;
use crate::graph::nodes_wf;
use crate::graph::reaches;
use crate::graph::respects_deps;
use crate::graph::valid_order;
use crate::graph::Graph;
use crate::graph::Node;
use crate::graph::OrderError;

verus! {

/// Whether `x` occurs in `v`.
pub(crate) fn contains_idx(v: &Vec<usize>, x: usize) -> (r: bool)
    ensures
        r == v@.contains(x),
{
    for i in 0..v.len()
        invariant
            forall|j: int| 0 <= j < i ==> v@[j] != x,
    {
        if v[i] == x {
            assert(v@.contains(x));
            return true;
        }
    }
    proof {
        if v@.contains(x) {
            let j = choose|j: int| 0 <= j < v@.len() && v@[j] == x;
        }
    }
    false
}

/// Materializes the combined, order-sensitive dependency list of node
/// `n`: non-leaf producers first, then extra-dependency producers, then
/// leaf producers.
#[verifier::loop_isolation(false)]
fn build_deps(nodes: &Vec<Node>, more: &Vec<(usize, usize)>, n: usize) -> (r: Vec<usize>)
    requires
        nodes_wf(nodes@),
        n < nodes@.len(),
    ensures
        r@ == deps_of(nodes@, more@, n),
{
    let ghost ins = nodes@[n as int].inputs@;
    let mut r: Vec<usize> = Vec::new();
    let num_inputs = nodes[n].inputs.len();
    for i in 0..num_inputs
        invariant
            num_inputs == ins.len(),
            r@ == input_deps(nodes@, ins.subrange(0, i as int), false),
    {
        let p = nodes[n].inputs[i];
        proof {
            assert(ins.subrange(0, i + 1).drop_last() =~= ins.subrange(0, i as int));
            assert(ins.subrange(0, i + 1).last() == ins[i as int]);
        }
        if nodes[p].inputs.len() > 0 {
            r.push(p);
        }
    }
    proof {
        assert(ins.subrange(0, ins.len() as int) =~= ins);
    }
    let ghost nonleaf = input_deps(nodes@, ins, false);
    for i in 0..more.len()
        invariant
            r@ == nonleaf + extra_producers(more@.subrange(0, i as int), n),
    {
        proof {
            assert(more@.subrange(0, i + 1).drop_last() =~= more@.subrange(0, i as int));
            assert(more@.subrange(0, i + 1).last() == more@[i as int]);
        }
        let d = more[i];
        if d.0 == n {
            r.push(d.1);
        }
    }
    proof {
        assert(more@.subrange(0, more@.len() as int) =~= more@);
    }
    let ghost front = nonleaf + extra_producers(more@, n);
    for i in 0..num_inputs
        invariant
            num_inputs == ins.len(),
            r@ == front + input_deps(nodes@, ins.subrange(0, i as int), true),
    {
        let p = nodes[n].inputs[i];
        proof {
            assert(ins.subrange(0, i + 1).drop_last() =~= ins.subrange(0, i as int));
            assert(ins.subrange(0, i + 1).last() == ins[i as int]);
        }
        if nodes[p].inputs.len() == 0 {
            r.push(p);
        }
    }
    proof {
        assert(ins.subrange(0, ins.len() as int) =~= ins);
    }
    r
}

/// The explicit depth-first stack is well formed: every frame holds a
/// valid, not-yet-emitted node and a position within its dependency
/// list; every frame but the top one is parked strictly before the end
/// of its list, is no declared input, and its next dependency is the
/// node of the frame above it; and every dependency a frame has stepped
/// past is already emitted.
spec fn frames_wf(
    nodes: Seq<Node>,
    deps: Seq<(usize, usize)>,
    inputs: Seq<usize>,
    st: Seq<(usize, usize)>,
    ds: Set<usize>,
) -> bool {
    &&& forall|l: int| 0 <= l < st.len() ==> ((#[trigger] st[l]).0 as int) < nodes.len()
    &&& forall|l: int| 0 <= l < st.len() ==> !ds.contains((#[trigger] st[l]).0)
    &&& forall|l: int|
        0 <= l < st.len() ==> (#[trigger] st[l]).1 <= deps_of(nodes, deps, st[l].0).len()
    &&& forall|l: int|
        0 <= l < st.len() - 1 ==> (#[trigger] st[l]).1 < deps_of(nodes, deps, st[l].0).len()
    &&& forall|l: int| 0 <= l < st.len() - 1 ==> !inputs.contains((#[trigger] st[l]).0)
    &&& forall|l: int|
        0 <= l < st.len() - 1 ==> st[l + 1].0 == deps_of(nodes, deps, (#[trigger] st[l]).0)[st[l].1 as int]
    &&& forall|l: int, i: int|
        0 <= l < st.len() && 0 <= i < st[l].1 ==> ds.contains(
            #[trigger] deps_of(nodes, deps, st[l].0)[i],
        )
}

/// The pending set holds exactly the nodes of the stack frames above the
/// bottom one, and those are pairwise distinct.
spec fn pending_ok(st: Seq<(usize, usize)>, ps: Set<usize>) -> bool {
    &&& forall|x: usize| #[trigger] ps.contains(x) ==> exists|l: int| 1 <= l < st.len() && st[l].0 == x
    &&& forall|l: int| 1 <= l < st.len() ==> ps.contains((#[trigger] st[l]).0)
    &&& forall|l1: int, l2: int|
        1 <= l1 < l2 < st.len() ==> (#[trigger] st[l1]).0 != (#[trigger] st[l2]).0
}

/// Some number of steps takes `target` to `x`.
spec fn reach_some(
    nodes: Seq<Node>,
    deps: Seq<(usize, usize)>,
    inputs: Seq<usize>,
    target: usize,
    x: usize,
) -> bool {
    exists|k: nat| reaches(nodes, deps, inputs, k, target, x)
}

/// Every stacked node is an ancestor of the target being resolved.
spec fn frames_reach(
    nodes: Seq<Node>,
    deps: Seq<(usize, usize)>,
    inputs: Seq<usize>,
    st: Seq<(usize, usize)>,
    target: usize,
) -> bool {
    forall|l: int|
        0 <= l < st.len() ==> reach_some(nodes, deps, inputs, target, (#[trigger] st[l]).0)
}

/// The partial order built so far is sound: duplicate-free, within
/// bounds, interchangeable with the done set, inside the closure, and
/// dependency-respecting.
spec fn order_state_ok(
    nodes: Seq<Node>,
    deps: Seq<(usize, usize)>,
    inputs: Seq<usize>,
    outputs: Seq<usize>,
    ord: Seq<usize>,
    ds: Set<usize>,
) -> bool {
    &&& ord.no_duplicates()
    &&& forall|k: int| 0 <= k < ord.len() ==> ((#[trigger] ord[k]) as int) < nodes.len()
    &&& forall|x: usize| #[trigger] ds.contains(x) ==> ord.contains(x)
    &&& forall|k: int| 0 <= k < ord.len() ==> ds.contains(#[trigger] ord[k])
    &&& forall|k: int|
        0 <= k < ord.len() ==> in_closure(nodes, deps, inputs, outputs, #[trigger] ord[k])
    &&& respects_deps(nodes, deps, inputs, ord)
}

/// Remaining work of one frame: how many dependencies it has left to
/// walk, plus one for its own emission.
spec fn frame_weight(nodes: Seq<Node>, deps: Seq<(usize, usize)>, f: (usize, usize)) -> int {
    if f.1 <= deps_of(nodes, deps, f.0).len() {
        deps_of(nodes, deps, f.0).len() - f.1 + 1
    } else {
        0
    }
}

/// Remaining work of the whole stack.
spec fn stack_weight(nodes: Seq<Node>, deps: Seq<(usize, usize)>, st: Seq<(usize, usize)>) -> int
    decreases st.len(),
{
    if st.len() == 0 {
        0
    } else {
        stack_weight(nodes, deps, st.drop_last()) + frame_weight(nodes, deps, st.last())
    }
}

proof fn lemma_stack_weight_nonneg(
    nodes: Seq<Node>,
    deps: Seq<(usize, usize)>,
    st: Seq<(usize, usize)>,
)
    ensures
        stack_weight(nodes, deps, st) >= 0,
    decreases st.len(),
{
    if st.len() > 0 {
        lemma_stack_weight_nonneg(nodes, deps, st.drop_last());
    }
}

pub(crate) proof fn lemma_no_dup_push(s: Seq<usize>, x: usize)
    requires
        s.no_duplicates(),
        !s.contains(x),
    ensures
        s.push(x).no_duplicates(),
{
    let t = s.push(x);
    assert forall|i: int, j: int|
        0 <= i < t.len() && 0 <= j < t.len() && i != j implies t[i] != t[j] by {
        if i < s.len() && j < s.len() {
            assert(s[i] == t[i] && s[j] == t[j]);
        } else if j == s.len() && i < s.len() {
            if t[i] == x {
                assert(s.contains(x));
            }
        } else if i == s.len() && j < s.len() {
            if t[j] == x {
                assert(s.contains(x));
            }
        }
    }
}

/// Depth-first linearization of the ancestor closure of
/// `model_outputs`, honoring each node's own inputs and the extra
/// `(consumer, producer)` dependencies, with declared `model_inputs`
/// treated as always ready. Succeeds with a valid order exactly when no
/// dependency cycle is reachable from an output.
#[verifier::loop_isolation(false)]
#[verifier::rlimit(100)]
pub fn eval_order_for_nodes(
    nodes: &Vec<Node>,
    model_inputs: &Vec<usize>,
    model_outputs: &Vec<usize>,
    more_dependencies: &Vec<(usize, usize)>,
) -> (r: Result<Vec<usize>, OrderError>)
    requires
        nodes_wf(nodes@),
        extra_deps_wf(nodes@, more_dependencies@),
        idxs_wf(nodes@.len() as int, model_outputs@),
    ensures
        r is Ok ==> valid_order(
            nodes@,
            more_dependencies@,
            model_inputs@,
            model_outputs@,
            r->Ok_0@,
        ),
        r is Err ==> has_reachable_cycle(
            nodes@,
            more_dependencies@,
            model_inputs@,
            model_outputs@,
        ),
{
    let n = nodes.len();
    let mut done = IndexSet::with_capacity(n);
    let mut order: Vec<usize> = Vec::new();
    for ti in 0..model_outputs.len()
        invariant
            elems(done).finite(),
            order_state_ok(
                nodes@,
                more_dependencies@,
                model_inputs@,
                model_outputs@,
                order@,
                elems(done),
            ),
            forall|oi: int| 0 <= oi < ti ==> elems(done).contains(#[trigger] model_outputs@[oi]),
    {
        let target = model_outputs[ti];
        if !done.contains(target) {
            let mut pending = IndexSet::with_capacity(n);
            let mut stack: Vec<(usize, usize)> = Vec::new();
            stack.push((target, 0));
            proof {
                assert(stack@[0] == (target, 0usize));
                assert(reaches(
                    nodes@,
                    more_dependencies@,
                    model_inputs@,
                    0nat,
                    target,
                    stack@[0].0,
                ));
                assert(reach_some(nodes@, more_dependencies@, model_inputs@, target, stack@[0].0));
            }
            #[verifier::loop_isolation(true)]
            while stack.len() > 0
                invariant
                    nodes_wf(nodes@),
                    extra_deps_wf(nodes@, more_dependencies@),
                    idxs_wf(nodes@.len() as int, model_outputs@),
                    0 <= ti < model_outputs@.len(),
                    target == model_outputs@[ti as int],
                    elems(done).finite(),
                    elems(pending).finite(),
                    order_state_ok(
                        nodes@,
                        more_dependencies@,
                        model_inputs@,
                        model_outputs@,
                        order@,
                        elems(done),
                    ),
                    frames_wf(nodes@, more_dependencies@, model_inputs@, stack@, elems(done)),
                    pending_ok(stack@, elems(pending)),
                    frames_reach(nodes@, more_dependencies@, model_inputs@, stack@, target),
                    stack@.len() > 0 ==> stack@[0].0 == target,
                    elems(done).contains(target) || stack@.len() > 0,
                    forall|oi: int|
                        0 <= oi < ti ==> elems(done).contains(#[trigger] model_outputs@[oi]),
                decreases
                    nodes@.len() - elems(done).union(elems(pending)).len(),
                    stack_weight(nodes@, more_dependencies@, stack@),
            {
                let ghost st0 = stack@;
                let ghost ds0 = elems(done);
                let ghost ps0 = elems(pending);
                let ghost ord0 = order@;
                let fr = stack.pop().unwrap();
                let cur = fr.0;
                let idx = fr.1;
                proof {
                    assert(st0.last() == (cur, idx));
                    assert(stack@ =~= st0.drop_last());
                }
                let dv = build_deps(nodes, more_dependencies, cur);
                let cnt = dv.len();
                let ghost dseq = deps_of(nodes@, more_dependencies@, cur);
                let is_input = contains_idx(model_inputs, cur);
                if is_input || idx == cnt {
                    proof {
                        assert forall|l: int|
                            0 <= l < stack@.len() implies (#[trigger] stack@[l]).0 != cur by {
                            if stack@[l].0 == cur {
                                assert(st0[l].0 == cur);
                                assert(!model_inputs@.contains(st0[l].0));
                                assert(idx == cnt);
                                assert(st0[l].1 < dseq.len());
                                assert(st0[l + 1].0 == dseq[st0[l].1 as int]);
                                assert(ds0.contains(dseq[st0[l].1 as int]));
                                assert(!ds0.contains(st0[l + 1].0));
                            }
                        }
                        assert(!ord0.contains(cur)) by {
                            if ord0.contains(cur) {
                                let k = choose|k: int| 0 <= k < ord0.len() && ord0[k] == cur;
                                assert(ds0.contains(cur));
                                assert(!ds0.contains(st0[st0.len() - 1].0));
                            }
                        }
                        lemma_no_dup_push(ord0, cur);
                        assert(in_closure(
                            nodes@,
                            more_dependencies@,
                            model_inputs@,
                            model_outputs@,
                            cur,
                        )) by {
                            let k = choose|k: nat|
                                #[trigger] reaches(
                                    nodes@,
                                    more_dependencies@,
                                    model_inputs@,
                                    k,
                                    target,
                                    st0[st0.len() - 1].0,
                                );
                            assert(0 <= ti < model_outputs@.len() && reaches(
                                nodes@,
                                more_dependencies@,
                                model_inputs@,
                                k,
                                model_outputs@[ti as int],
                                cur,
                            ));
                        }
                    }
                    order.push(cur);
                    done.insert(cur);
                    pending.remove(cur);
                    proof {
                        let ordn = order@;
                        assert(ordn == ord0.push(cur));
                        // the done set and the order stay interchangeable
                        assert forall|x: usize| #[trigger] elems(done).contains(x) implies
                            ordn.contains(x) by {
                            if x == cur {
                                assert(ordn[ordn.len() - 1] == cur);
                            } else {
                                let k = choose|k: int| 0 <= k < ord0.len() && ord0[k] == x;
                                assert(ordn[k] == x);
                            }
                        }
                        // the new element respects its dependencies
                        assert forall|k2: int, dd: usize|
                            0 <= k2 < ordn.len() && #[trigger] dep_edge(
                                nodes@,
                                more_dependencies@,
                                model_inputs@,
                                ordn[k2],
                                dd,
                            ) implies exists|k3: int| 0 <= k3 < k2 && ordn[k3] == dd by {
                            if k2 < ord0.len() {
                                assert(dep_edge(
                                    nodes@,
                                    more_dependencies@,
                                    model_inputs@,
                                    ord0[k2],
                                    dd,
                                ));
                                let k3 = choose|k3: int| 0 <= k3 < k2 && ord0[k3] == dd;
                                assert(ordn[k3] == dd);
                            } else {
                                assert(ordn[k2] == cur);
                                assert(!model_inputs@.contains(cur));
                                assert(!is_input);
                                assert(idx == cnt);
                                assert(dseq.contains(dd));
                                let i = dseq.lemma_contains_to_index(dd);
                                assert(ds0.contains(dseq[i]));
                                assert(ord0.contains(dd));
                                let k3 = choose|k3: int| 0 <= k3 < ord0.len() && ord0[k3] == dd;
                                assert(ordn[k3] == dd);
                            }
                        }
                        assert forall|l: int| 0 <= l < stack@.len() implies reach_some(
                            nodes@,
                            more_dependencies@,
                            model_inputs@,
                            target,
                            (#[trigger] stack@[l]).0,
                        ) by {
                            assert(stack@[l].0 == st0[l].0);
                            assert(reach_some(nodes@, more_dependencies@, model_inputs@, target, st0[l].0));
                        }
                        // pending still matches the remaining frames
                        assert forall|x: usize| #[trigger] elems(pending).contains(x) implies
                            exists|l: int| 1 <= l < stack@.len() && stack@[l].0 == x by {
                            assert(ps0.contains(x) && x != cur);
                            let l = choose|l: int| 1 <= l < st0.len() && st0[l].0 == x;
                            assert(l < st0.len() - 1);
                            assert(stack@[l].0 == x);
                        }
                        // the target is emitted or still at the bottom
                        if st0.len() == 1 {
                            assert(st0[0].0 == target);
                            assert(elems(done).contains(target));
                        }
                        // termination: the union never shrinks and the
                        // stack got lighter
                        assert(ds0.union(ps0).insert(cur) =~= elems(done).union(elems(pending)));
                        if st0.len() >= 2 {
                            assert(ps0.contains(st0[st0.len() - 1].0));
                            assert(ds0.union(ps0) =~= elems(done).union(elems(pending)));
                        }
                        assert forall|x: usize|
                            elems(done).union(elems(pending)).contains(x) implies (x as int)
                            < nodes@.len() by {
                            if elems(done).contains(x) {
                                let k = choose|k: int|
                                    0 <= k < order@.len() && order@[k] == x;
                            } else {
                                let l = choose|l: int| 1 <= l < stack@.len() && stack@[l].0 == x;
                            }
                        }
                        crate::graph::lemma_bounded_card(
                            elems(done).union(elems(pending)),
                            nodes@.len() as int,
                        );
                        lemma_stack_weight_nonneg(nodes@, more_dependencies@, stack@);
                        assert(frame_weight(nodes@, more_dependencies@, (cur, idx)) >= 1);
                    }
                } else {
                    assert(idx < cnt);
                    let d = dv[idx];
                    proof {
                        assert(dseq[idx as int] == d);
                        assert(dseq.contains(d));
                        lemma_deps_of_wf(nodes@, more_dependencies@, cur);
                        assert((d as int) < nodes@.len());
                        assert(dep_edge(nodes@, more_dependencies@, model_inputs@, cur, d));
                    }
                    if done.contains(d) {
                        stack.push((cur, idx + 1));
                        proof {
                            let stn = stack@;
                            assert(stn =~= st0.drop_last().push((cur, (idx + 1) as usize)));
                            assert forall|l: int| 0 <= l < stn.len() implies (#[trigger] stn[l]).0
                                == st0[l].0 by {}
                            // pending matches frames of unchanged nodes
                            assert forall|x: usize| #[trigger] elems(pending).contains(x) implies
                                exists|l: int| 1 <= l < stn.len() && stn[l].0 == x by {
                                let l = choose|l: int| 1 <= l < st0.len() && st0[l].0 == x;
                                assert(stn[l].0 == x);
                            }
                            assert forall|l: int| 0 <= l < stn.len() implies reach_some(
                                nodes@,
                                more_dependencies@,
                                model_inputs@,
                                target,
                                (#[trigger] stn[l]).0,
                            ) by {
                                assert(stn[l].0 == st0[l].0);
                                assert(reach_some(nodes@, more_dependencies@, model_inputs@, target, st0[l].0));
                            }
                            // frame weights: one dependency was stepped past
                            assert(stack_weight(nodes@, more_dependencies@, stn)
                                == stack_weight(nodes@, more_dependencies@, st0) - 1) by {
                                assert(stn.drop_last() =~= st0.drop_last());
                                assert(frame_weight(nodes@, more_dependencies@, (cur, idx)) == dseq.len()
                                    - idx + 1);
                                assert(frame_weight(nodes@, more_dependencies@, (cur, (idx + 1) as usize))
                                    == dseq.len() - idx);
                            }
                            lemma_stack_weight_nonneg(nodes@, more_dependencies@, stn);
                            }
                    } else if pending.contains(d) {
                        proof {
                            let ml = choose|l: int| 1 <= l < st0.len() && st0[l].0 == d;
                            let p = Seq::new((st0.len() - ml) as nat, |i: int| st0[ml + i].0);
                            assert forall|l: int|
                                0 <= l < p.len() - 1 implies dep_edge(
                                nodes@,
                                more_dependencies@,
                                model_inputs@,
                                #[trigger] p[l],
                                p[l + 1],
                            ) by {
                                assert(st0[ml + l + 1].0 == deps_of(
                                    nodes@,
                                    more_dependencies@,
                                    st0[ml + l].0,
                                )[st0[ml + l].1 as int]);
                                assert(deps_of(nodes@, more_dependencies@, st0[ml + l].0).contains(
                                    st0[ml + l + 1].0,
                                ));
                            }
                            lemma_path_reaches(nodes@, more_dependencies@, model_inputs@, p);
                            assert(p[0] == d && p.last() == cur);
                            assert(in_closure(
                                nodes@,
                                more_dependencies@,
                                model_inputs@,
                                model_outputs@,
                                cur,
                            )) by {
                                let k = choose|k: nat|
                                    #[trigger] reaches(
                                        nodes@,
                                        more_dependencies@,
                                        model_inputs@,
                                        k,
                                        target,
                                        st0[st0.len() - 1].0,
                                    );
                                assert(0 <= ti < model_outputs@.len() && reaches(
                                    nodes@,
                                    more_dependencies@,
                                    model_inputs@,
                                    k,
                                    model_outputs@[ti as int],
                                    cur,
                                ));
                            }
                            assert(has_reachable_cycle(
                                nodes@,
                                more_dependencies@,
                                model_inputs@,
                                model_outputs@,
                            )) by {
                                assert(in_closure(
                                    nodes@,
                                    more_dependencies@,
                                    model_inputs@,
                                    model_outputs@,
                                    cur,
                                ) && dep_edge(nodes@, more_dependencies@, model_inputs@, cur, d)
                                    && reaches(
                                    nodes@,
                                    more_dependencies@,
                                    model_inputs@,
                                    (p.len() - 1) as nat,
                                    d,
                                    cur,
                                ));
                            }
                        }
                        return Err(OrderError::CycleDetected);
                    } else {
                        pending.insert(d);
                        stack.push((cur, idx));
                        stack.push((d, 0));
                        proof {
                            let stn = stack@;
                            assert(st0.drop_last().push((cur, idx)) =~= st0);
                            assert(stn =~= st0.push((d, 0)));
                            // reachability of the new frame
                            let k = choose|k: nat|
                                #[trigger] reaches(
                                    nodes@,
                                    more_dependencies@,
                                    model_inputs@,
                                    k,
                                    target,
                                    st0[st0.len() - 1].0,
                                );
                            lemma_reaches_extend(
                                nodes@,
                                more_dependencies@,
                                model_inputs@,
                                k,
                                target,
                                cur,
                                d,
                            );
                            assert forall|l: int| 0 <= l < stn.len() implies reach_some(
                                nodes@,
                                more_dependencies@,
                                model_inputs@,
                                target,
                                (#[trigger] stn[l]).0,
                            ) by {
                                if l < st0.len() {
                                    assert(stn[l].0 == st0[l].0);
                                    assert(reach_some(nodes@, more_dependencies@, model_inputs@, target, st0[l].0));
                                } else {
                                    assert(stn[l].0 == d);
                                    assert(reaches(
                                        nodes@,
                                        more_dependencies@,
                                        model_inputs@,
                                        (k + 1) as nat,
                                        target,
                                        d,
                                    ));
                                    assert(reach_some(nodes@, more_dependencies@, model_inputs@, target, d));
                                }
                            }
                            // pending matches the extended stack
                            assert forall|x: usize| #[trigger] elems(pending).contains(x) implies
                                exists|l: int| 1 <= l < stn.len() && stn[l].0 == x by {
                                if x == d {
                                    assert(stn[st0.len() as int].0 == d);
                                } else {
                                    let l = choose|l: int| 1 <= l < st0.len() && st0[l].0 == x;
                                    assert(stn[l].0 == x);
                                }
                            }
                            assert forall|l1: int, l2: int|
                                1 <= l1 < l2 < stn.len() implies (#[trigger] stn[l1]).0 != (
                            #[trigger] stn[l2]).0 by {
                                if l2 == st0.len() {
                                    assert(ps0.contains(st0[l1].0));
                                    assert(!ps0.contains(d));
                                }
                            }
                            // termination: a new node became pending
                            assert(!ds0.union(ps0).contains(d));
                            assert(ds0.union(ps0).insert(d) =~= elems(done).union(elems(pending)));
                            assert forall|x: usize|
                                elems(done).union(elems(pending)).contains(x) implies (x as int)
                                < nodes@.len() by {
                                if elems(done).contains(x) {
                                    let k2 = choose|k2: int|
                                        0 <= k2 < order@.len() && order@[k2] == x;
                                } else if ps0.contains(x) {
                                    let l = choose|l: int| 1 <= l < st0.len() && st0[l].0 == x;
                                }
                            }
                            crate::graph::lemma_bounded_card(
                                elems(done).union(elems(pending)),
                                nodes@.len() as int,
                            );
                            lemma_stack_weight_nonneg(nodes@, more_dependencies@, stn);
                            }
                    }
                }
            }
        }
    }
    proof {
        assert forall|x: usize|
            in_closure(nodes@, more_dependencies@, model_inputs@, model_outputs@, x) implies
            order@.contains(x) by {
            let (oi, k): (int, nat) = choose|oi: int, k: nat|
                0 <= oi < model_outputs@.len() && reaches(
                    nodes@,
                    more_dependencies@,
                    model_inputs@,
                    k,
                    model_outputs@[oi],
                    x,
                );
            assert(elems(done).contains(model_outputs@[oi]));
            assert(order@.contains(model_outputs@[oi]));
            lemma_reach_in_order(
                nodes@,
                more_dependencies@,
                model_inputs@,
                order@,
                k,
                model_outputs@[oi],
                x,
            );
        }
    }
    Ok(order)
}


/// Evaluation order for a whole model, using its declared inputs and
/// outputs as boundaries and no extra dependencies.
pub fn eval_order(model: &Graph) -> (r: Result<Vec<usize>, OrderError>)
    requires
        model.wf(),
    ensures
        r is Ok ==> valid_order(
            model.nodes@,
            Seq::<(usize, usize)>::empty(),
            model.inputs@,
            model.outputs@,
            r->Ok_0@,
        ),
        r is Err ==> has_reachable_cycle(
            model.nodes@,
            Seq::<(usize, usize)>::empty(),
            model.inputs@,
            model.outputs@,
        ),
{
    let empty: Vec<(usize, usize)> = Vec::new();
    eval_order_for_nodes(&model.nodes, &model.inputs, &model.outputs, &empty)
}

} // verus!
