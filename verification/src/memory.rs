//! The memory-aware scheduler: orders the ancestor closure of the
//! outputs by repeatedly emitting a ready node, greedily choosing the
//! candidate that leaves the smallest total cost of live tensors, where
//! a node's cost is the byte size of its outputs (zero when a shape is
//! not fully known — a documented approximation, not a memory
//! guarantee). Ties are broken towards the lowest node index, so the
//! schedule is reproducible.

use vstd::prelude::*;

use crate::bits::elems;
use crate::bits::IndexSet;
use crate::graph::dep_edge;
use crate::graph::extra_deps_wf;
use crate::graph::has_reachable_cycle;
use crate::graph::idxs_wf;
use crate::graph::in_closure;
use crate::graph::lemma_deps_of_membership;
use crate::graph::lemma_deps_of_wf;
use crate::graph::lemma_in_closure_step;
use crate::graph::lemma_path_reaches;
use crate::graph::nodes_wf;
use crate::graph::reaches;
use crate::graph::respects_deps;
use crate::graph::valid_order;
use crate::graph::Fact;
use crate::graph::Node;
use crate::graph::OrderError;
use crate::order::contains_idx;
use crate::order::lemma_no_dup_push;

verus! {

/// `p` produces one of `a`'s inputs, or an extra dependency names the
/// pair. This is the dependency relation the scheduler works with: it
/// has no notion of model inputs, every producer counts.
pub open spec fn is_up(nodes: Seq<Node>, deps: Seq<(usize, usize)>, a: usize, p: usize) -> bool {
    nodes[a as int].inputs@.contains(p) || exists|j: int|
        0 <= j < deps.len() && #[trigger] deps[j] == (a, p)
}

/// The scheduler's relation agrees with the resolver's combined
/// dependency list when no node is exempted as a model input.
pub proof fn lemma_is_up_is_dep_edge(
    nodes: Seq<Node>,
    deps: Seq<(usize, usize)>,
    a: usize,
    p: usize,
)
    requires
        a < nodes.len(),
    ensures
        is_up(nodes, deps, a, p) <==> dep_edge(nodes, deps, Seq::<usize>::empty(), a, p),
{
    lemma_deps_of_membership(nodes, deps, a, p);
}

/// A set closed under the dependency relation contains everything its
/// members reach.
proof fn lemma_closed_contains_reachable(
    nodes: Seq<Node>,
    deps: Seq<(usize, usize)>,
    s: Set<usize>,
    k: nat,
    a: usize,
    b: usize,
)
    requires
        s.contains(a),
        reaches(nodes, deps, Seq::<usize>::empty(), k, a, b),
        forall|x: usize, m: usize|
            s.contains(x) && #[trigger] dep_edge(nodes, deps, Seq::<usize>::empty(), x, m)
                ==> s.contains(m),
    ensures
        s.contains(b),
    decreases k,
{
    if a != b {
        let m = choose|m: usize|
            dep_edge(nodes, deps, Seq::<usize>::empty(), a, m) && reaches(
                nodes,
                deps,
                Seq::<usize>::empty(),
                (k - 1) as nat,
                m,
                b,
            );
        lemma_closed_contains_reachable(nodes, deps, s, (k - 1) as nat, m, b);
    }
}

/// The deduplicated upstream adjacency: row `i` holds each producer of
/// node `i` exactly by membership — everything `is_up` relates to `i`,
/// and nothing else.
spec fn ups_ok(nodes: Seq<Node>, deps: Seq<(usize, usize)>, ups: Seq<Vec<usize>>) -> bool {
    &&& ups.len() == nodes.len()
    &&& forall|i: int, p: usize|
        0 <= i < ups.len() ==> ((#[trigger] ups[i]@.contains(p)) <==> is_up(
            nodes,
            deps,
            i as usize,
            p,
        ))
    &&& forall|i: int, j: int|
        0 <= i < ups.len() && 0 <= j < ups[i]@.len() ==> ((#[trigger] ups[i]@[j]) as int)
            < nodes.len()
}

/// Builds the deduplicated producer list of every node from its inputs
/// and the extra dependencies.
#[verifier::loop_isolation(false)]
fn build_ups(nodes: &Vec<Node>, more: &Vec<(usize, usize)>) -> (r: Vec<Vec<usize>>)
    requires
        nodes_wf(nodes@),
        extra_deps_wf(nodes@, more@),
    ensures
        ups_ok(nodes@, more@, r@),
{
    broadcast use vstd::seq_lib::group_seq_properties;

    let n = nodes.len();
    let mut r: Vec<Vec<usize>> = Vec::new();
    for i in 0..n
        invariant
            r@.len() == i,
            forall|i2: int, p: usize|
                0 <= i2 < i ==> ((#[trigger] r@[i2]@.contains(p)) <==> is_up(
                    nodes@,
                    more@,
                    i2 as usize,
                    p,
                )),
            forall|i2: int, j: int|
                0 <= i2 < i && 0 <= j < r@[i2]@.len() ==> ((#[trigger] r@[i2]@[j]) as int)
                    < nodes@.len(),
    {
        let ghost ins = nodes@[i as int].inputs@;
        let mut row: Vec<usize> = Vec::new();
        let num_inputs = nodes[i].inputs.len();
        for j in 0..num_inputs
            invariant
                num_inputs == ins.len(),
                forall|q: usize| (#[trigger] row@.contains(q)) <==> ins.subrange(
                    0,
                    j as int,
                ).contains(q),
                forall|j2: int| 0 <= j2 < row@.len() ==> ((#[trigger] row@[j2]) as int)
                    < nodes@.len(),
        {
            let p = nodes[i].inputs[j];
            proof {
                assert(ins.subrange(0, j + 1) =~= ins.subrange(0, j as int).push(ins[j as int]));
            }
            if !contains_idx(&row, p) {
                row.push(p);
            }
        }
        proof {
            assert(ins.subrange(0, ins.len() as int) =~= ins);
        }
        for j in 0..more.len()
            invariant
                forall|q: usize| (#[trigger] row@.contains(q)) <==> (ins.contains(q) || exists|jj: int|
                    0 <= jj < j && #[trigger] more@[jj] == (i, q)),
                forall|j2: int| 0 <= j2 < row@.len() ==> ((#[trigger] row@[j2]) as int)
                    < nodes@.len(),
        {
            let d = more[j];
            if d.0 == i && !contains_idx(&row, d.1) {
                row.push(d.1);
            }
            proof {
                assert forall|q: usize| #[trigger] row@.contains(q) implies (ins.contains(q)
                    || exists|jj: int| 0 <= jj < j + 1 && #[trigger] more@[jj] == (i, q)) by {
                    if !ins.contains(q) {
                        if q == d.1 && d.0 == i {
                            assert(more@[j as int] == (i, q));
                        }
                    }
                }
                assert forall|q: usize| (ins.contains(q) || exists|jj: int|
                    0 <= jj < j + 1 && #[trigger] more@[jj] == (i, q)) implies #[trigger] row@.contains(
                    q,
                ) by {
                    if !ins.contains(q) {
                        let jj = choose|jj: int| 0 <= jj < j + 1 && #[trigger] more@[jj] == (i, q);
                    }
                }
            }
        }
        r.push(row);
        proof {
            assert forall|i2: int, p: usize| 0 <= i2 < i + 1 implies ((#[trigger] r@[i2]@.contains(
                p,
            )) <==> is_up(nodes@, more@, i2 as usize, p)) by {
                if i2 == i {
                    assert(r@[i2]@ == row@);
                }
            }
        }
    }
    r
}

/// `v` capped at the largest machine integer; products and sums of
/// costs saturate there instead of overflowing.
pub open spec fn cap(v: int) -> int {
    if v > usize::MAX as int {
        usize::MAX as int
    } else {
        v
    }
}

/// Number of elements of a fully known shape, saturating.
pub open spec fn shape_count(dims: Seq<usize>) -> int
    decreases dims.len(),
{
    if dims.len() == 0 {
        1
    } else {
        cap(shape_count(dims.drop_last()) * (dims.last() as int))
    }
}

/// Byte size of one output: its element byte width times its element
/// count when the shape is fully known, zero otherwise.
pub open spec fn fact_cost(f: Fact) -> int {
    match f.shape {
        Some(dims) => cap((f.datum_width as int) * shape_count(dims@)),
        None => 0,
    }
}

/// Total byte size of a node's outputs, saturating.
pub open spec fn outputs_cost(outs: Seq<Fact>) -> int
    decreases outs.len(),
{
    if outs.len() == 0 {
        0
    } else {
        cap(outputs_cost(outs.drop_last()) + fact_cost(outs.last()))
    }
}

/// Saturating product.
fn mul_sat(a: usize, b: usize) -> (r: usize)
    ensures
        r as int == cap((a as int) * (b as int)),
{
    if b == 0 {
        0
    } else if a > usize::MAX / b {
        proof {
            vstd::arithmetic::div_mod::lemma_fundamental_div_mod(usize::MAX as int, b as int);
            assert((a as int) * (b as int) >= ((usize::MAX as int) / (b as int) + 1) * (b as int))
                by (nonlinear_arith)
                requires
                    a as int >= (usize::MAX as int) / (b as int) + 1,
                    b as int > 0,
            ;
            assert((usize::MAX as int) % (b as int) < b as int) by {
                vstd::arithmetic::div_mod::lemma_mod_bound(usize::MAX as int, b as int);
            }
            assert(((usize::MAX as int) / (b as int) + 1) * (b as int) == ((usize::MAX as int) / (
            b as int)) * (b as int) + (b as int)) by (nonlinear_arith);
        }
        usize::MAX
    } else {
        proof {
            vstd::arithmetic::div_mod::lemma_fundamental_div_mod(usize::MAX as int, b as int);
            assert((a as int) * (b as int) <= ((usize::MAX as int) / (b as int)) * (b as int))
                by (nonlinear_arith)
                requires
                    a as int <= (usize::MAX as int) / (b as int),
                    b as int > 0,
            ;
            assert((usize::MAX as int) % (b as int) >= 0) by {
                vstd::arithmetic::div_mod::lemma_mod_bound(usize::MAX as int, b as int);
            }
        }
        a * b
    }
}

/// Saturating sum.
fn add_sat(a: usize, b: usize) -> (r: usize)
    ensures
        r as int == cap(a as int + b as int),
{
    if a <= usize::MAX - b {
        a + b
    } else {
        usize::MAX
    }
}

/// Cost of one node: the saturating sum over its outputs of byte width
/// times element count, with unknown shapes counted as zero.
pub fn node_cost(node: &Node) -> (r: usize)
    ensures
        r as int == outputs_cost(node.outputs@),
{
    let mut acc: usize = 0;
    let num_outputs = node.outputs.len();
    for i in 0..num_outputs
        invariant
            num_outputs == node.outputs@.len(),
            acc as int == outputs_cost(node.outputs@.subrange(0, i as int)),
    {
        proof {
            assert(node.outputs@.subrange(0, i + 1).drop_last() =~= node.outputs@.subrange(
                0,
                i as int,
            ));
            assert(node.outputs@.subrange(0, i + 1).last() == node.outputs@[i as int]);
        }
        let f = &node.outputs[i];
        let fc: usize = match &f.shape {
            Some(dims) => {
                let mut count: usize = 1;
                let num_dims = dims.len();
                for j in 0..num_dims
                    invariant
                        num_dims == dims@.len(),
                        count as int == shape_count(dims@.subrange(0, j as int)),
                {
                    proof {
                        assert(dims@.subrange(0, j + 1).drop_last() =~= dims@.subrange(0, j as int));
                        assert(dims@.subrange(0, j + 1).last() == dims@[j as int]);
                    }
                    count = mul_sat(count, dims[j]);
                }
                proof {
                    assert(dims@.subrange(0, dims@.len() as int) =~= dims@);
                }
                mul_sat(f.datum_width, count)
            },
            None => 0,
        };
        proof {
            assert(fc as int == fact_cost(node.outputs@[i as int]));
        }
        acc = add_sat(acc, fc);
    }
    proof {
        assert(node.outputs@.subrange(0, node.outputs@.len() as int) =~= node.outputs@);
    }
    acc
}


/// In a finite set where every node still depends on another member of
/// the set, following dependencies long enough must revisit a node: the
/// set holds a cycle. This is why the scheduler's "no ready candidate
/// while work remains" condition can only arise from a cycle.
#[verifier::rlimit(100)]
proof fn lemma_stuck_set_has_cycle(
    nodes: Seq<Node>,
    deps: Seq<(usize, usize)>,
    s: Set<usize>,
    succ: spec_fn(usize) -> usize,
    path: Seq<usize>,
)
    requires
        s.finite(),
        path.len() >= 1,
        path.no_duplicates(),
        forall|l: int| 0 <= l < path.len() ==> s.contains(#[trigger] path[l]),
        forall|l: int|
            0 <= l < path.len() - 1 ==> dep_edge(
                nodes,
                deps,
                Seq::<usize>::empty(),
                #[trigger] path[l],
                path[l + 1],
            ),
        forall|x: usize|
            s.contains(x) ==> s.contains(#[trigger] succ(x)) && dep_edge(
                nodes,
                deps,
                Seq::<usize>::empty(),
                x,
                succ(x),
            ),
    ensures
        exists|x: usize, m: usize, k: nat|
            s.contains(x) && dep_edge(nodes, deps, Seq::<usize>::empty(), x, m) && reaches(
                nodes,
                deps,
                Seq::<usize>::empty(),
                k,
                m,
                x,
            ),
    decreases s.len() - path.len(),
{
    let x = path.last();
    assert(s.contains(x));
    let m = succ(x);
    assert(s.contains(m) && dep_edge(nodes, deps, Seq::<usize>::empty(), x, m));
    if path.contains(m) {
        let i = choose|i: int| 0 <= i < path.len() && path[i] == m;
        let q = path.subrange(i, path.len() as int);
        assert forall|l: int|
            0 <= l < q.len() - 1 implies dep_edge(
            nodes,
            deps,
            Seq::<usize>::empty(),
            #[trigger] q[l],
            q[l + 1],
        ) by {
            assert(q[l] == path[i + l] && q[l + 1] == path[i + l + 1]);
        }
        lemma_path_reaches(nodes, deps, Seq::<usize>::empty(), q);
        assert(q[0] == m && q.last() == x);
        assert(s.contains(x) && dep_edge(nodes, deps, Seq::<usize>::empty(), x, m) && reaches(
            nodes,
            deps,
            Seq::<usize>::empty(),
            (q.len() - 1) as nat,
            m,
            x,
        ));
    } else {
        path.unique_seq_to_set();
        assert(path.to_set().insert(m).subset_of(s));
        vstd::set_lib::lemma_len_subset(path.to_set().insert(m), s);
        assert(path.to_set().insert(m).len() == path.len() + 1) by {
            broadcast use vstd::seq_lib::seq_to_set_is_finite;

            assert(!path.to_set().contains(m));
        }
        lemma_no_dup_push(path, m);
        let path2 = path.push(m);
        assert forall|l: int|
            0 <= l < path2.len() - 1 implies dep_edge(
            nodes,
            deps,
            Seq::<usize>::empty(),
            #[trigger] path2[l],
            path2[l + 1],
        ) by {
            if l < path.len() - 1 {
                assert(path2[l] == path[l] && path2[l + 1] == path[l + 1]);
            } else {
                assert(path2[l] == x && path2[l + 1] == m);
            }
        }
        lemma_stuck_set_has_cycle(nodes, deps, s, succ, path2);
    }
}

/// The required set: exactly the ancestor closure of the declared
/// outputs under the scheduler's dependency relation, computed as a
/// fixed point over the upstream adjacency.
#[verifier::loop_isolation(false)]
fn required_set(
    nodes: &Vec<Node>,
    more: &Vec<(usize, usize)>,
    ups: &Vec<Vec<usize>>,
    model_outputs: &Vec<usize>,
) -> (todo: IndexSet)
    requires
        nodes_wf(nodes@),
        extra_deps_wf(nodes@, more@),
        idxs_wf(nodes@.len() as int, model_outputs@),
        ups_ok(nodes@, more@, ups@),
    ensures
        elems(todo).finite(),
        forall|x: usize|
            #[trigger] elems(todo).contains(x) ==> in_closure(
                nodes@,
                more@,
                Seq::<usize>::empty(),
                model_outputs@,
                x,
            ) && (x as int) < nodes@.len(),
        forall|x: usize|
            in_closure(nodes@, more@, Seq::<usize>::empty(), model_outputs@, x) ==> elems(
                todo,
            ).contains(x),
{
    let n = nodes.len();
    let mut todo = IndexSet::with_capacity(n);
    for oi in 0..model_outputs.len()
        invariant
            elems(todo).finite(),
            forall|x: usize|
                #[trigger] elems(todo).contains(x) ==> in_closure(
                    nodes@,
                    more@,
                    Seq::<usize>::empty(),
                    model_outputs@,
                    x,
                ) && (x as int) < nodes@.len(),
            forall|oj: int| 0 <= oj < oi ==> elems(todo).contains(#[trigger] model_outputs@[oj]),
    {
        let o = model_outputs[oi];
        proof {
            assert(reaches(nodes@, more@, Seq::<usize>::empty(), 0nat, o, o));
            assert(0 <= oi < model_outputs@.len() && reaches(
                nodes@,
                more@,
                Seq::<usize>::empty(),
                0nat,
                model_outputs@[oi as int],
                o,
            ));
            assert(in_closure(nodes@, more@, Seq::<usize>::empty(), model_outputs@, o));
        }
        todo.insert(o);
    }
    let mut grew = true;
    while grew
        invariant
            elems(todo).finite(),
            forall|x: usize|
                #[trigger] elems(todo).contains(x) ==> in_closure(
                    nodes@,
                    more@,
                    Seq::<usize>::empty(),
                    model_outputs@,
                    x,
                ) && (x as int) < nodes@.len(),
            forall|oj: int|
                0 <= oj < model_outputs@.len() ==> elems(todo).contains(
                    #[trigger] model_outputs@[oj],
                ),
            !grew ==> (forall|x: usize, m: usize|
                elems(todo).contains(x) && #[trigger] dep_edge(
                    nodes@,
                    more@,
                    Seq::<usize>::empty(),
                    x,
                    m,
                ) ==> elems(todo).contains(m)),
        decreases (nodes@.len() as int) - elems(todo).len() + (if grew { 1int } else { 0int }),
    {
        let ghost t0 = elems(todo);
        grew = false;
        for i in 0..n
            invariant
                elems(todo).finite(),
                forall|x: usize|
                    #[trigger] elems(todo).contains(x) ==> in_closure(
                        nodes@,
                        more@,
                        Seq::<usize>::empty(),
                        model_outputs@,
                        x,
                    ) && (x as int) < nodes@.len(),
                forall|oj: int|
                    0 <= oj < model_outputs@.len() ==> elems(todo).contains(
                        #[trigger] model_outputs@[oj],
                    ),
                forall|x: usize| t0.contains(x) ==> elems(todo).contains(x),
                grew ==> exists|p: usize| elems(todo).contains(p) && !t0.contains(p),
                !grew ==> elems(todo) == t0,
                !grew ==> (forall|x: usize, m: usize|
                    elems(todo).contains(x) && (x as int) < i && #[trigger] dep_edge(
                        nodes@,
                        more@,
                        Seq::<usize>::empty(),
                        x,
                        m,
                    ) ==> elems(todo).contains(m)),
        {
            if todo.contains(i) {
                let row_len = ups[i].len();
                for j in 0..row_len
                    invariant
                        row_len == ups@[i as int]@.len(),
                        elems(todo).finite(),
                        elems(todo).contains(i),
                        forall|x: usize|
                            #[trigger] elems(todo).contains(x) ==> in_closure(
                                nodes@,
                                more@,
                                Seq::<usize>::empty(),
                                model_outputs@,
                                x,
                            ) && (x as int) < nodes@.len(),
                        forall|oj: int|
                            0 <= oj < model_outputs@.len() ==> elems(todo).contains(
                                #[trigger] model_outputs@[oj],
                            ),
                        forall|x: usize| t0.contains(x) ==> elems(todo).contains(x),
                        grew ==> exists|p: usize| elems(todo).contains(p) && !t0.contains(p),
                        !grew ==> elems(todo) == t0,
                        !grew ==> (forall|x: usize, m: usize|
                            elems(todo).contains(x) && (x as int) < i && #[trigger] dep_edge(
                                nodes@,
                                more@,
                                Seq::<usize>::empty(),
                                x,
                                m,
                            ) ==> elems(todo).contains(m)),
                        forall|jj: int|
                            0 <= jj < j ==> elems(todo).contains(#[trigger] ups@[i as int]@[jj]),
                {
                    let p = ups[i][j];
                    if !todo.contains(p) {
                        proof {
                            assert(ups@[i as int]@.contains(p));
                            lemma_is_up_is_dep_edge(nodes@, more@, i, p);
                            lemma_in_closure_step(
                                nodes@,
                                more@,
                                Seq::<usize>::empty(),
                                model_outputs@,
                                i,
                                p,
                            );
                            lemma_deps_of_wf(nodes@, more@, i);
                        }
                        todo.insert(p);
                        grew = true;
                        proof {
                            assert(elems(todo).contains(p) && !t0.contains(p));
                        }
                    }
                }
                proof {
                    if !grew {
                        assert forall|x: usize, m: usize|
                            elems(todo).contains(x) && (x as int) < i + 1 && #[trigger] dep_edge(
                                nodes@,
                                more@,
                                Seq::<usize>::empty(),
                                x,
                                m,
                            ) implies elems(todo).contains(m) by {
                            if x == i {
                                lemma_is_up_is_dep_edge(nodes@, more@, i, m);
                                assert(ups@[i as int]@.contains(m));
                                let jj = ups@[i as int]@.lemma_contains_to_index(m);
                            }
                        }
                    }
                }
            }
        }
        proof {
            crate::graph::lemma_bounded_card(elems(todo), nodes@.len() as int);
            if grew {
                let p = choose|p: usize| elems(todo).contains(p) && !t0.contains(p);
                assert(t0.subset_of(elems(todo).remove(p)));
                vstd::set_lib::lemma_len_subset(t0, elems(todo).remove(p));
            }
        }
    }
    proof {
        assert forall|x: usize|
            in_closure(nodes@, more@, Seq::<usize>::empty(), model_outputs@, x) implies elems(
            todo,
        ).contains(x) by {
            let (oi, k): (int, nat) = choose|oi: int, k: nat|
                0 <= oi < model_outputs@.len() && reaches(
                    nodes@,
                    more@,
                    Seq::<usize>::empty(),
                    k,
                    model_outputs@[oi],
                    x,
                );
            lemma_closed_contains_reachable(
                nodes@,
                more@,
                elems(todo),
                k,
                model_outputs@[oi],
                x,
            );
        }
    }
    todo
}

/// Whether every producer in `row` has already left the todo set.
fn all_ups_scheduled(row: &Vec<usize>, todo: &IndexSet) -> (r: bool)
    ensures
        r <==> (forall|j: int| 0 <= j < row@.len() ==> !elems(*todo).contains(#[trigger] row@[j])),
{
    for j in 0..row.len()
        invariant
            forall|jj: int| 0 <= jj < j ==> !elems(*todo).contains(#[trigger] row@[jj]),
    {
        if todo.contains(row[j]) {
            assert(elems(*todo).contains(row@[j as int]));
            return false;
        }
    }
    true
}

/// The greedy lookahead weight of scheduling `c` next: the saturating
/// total cost of the nodes that would stay live right after — producers
/// of some still-pending node that are `c` itself or already scheduled.
/// The weight only steers the choice among ready candidates; any value
/// leaves the schedule valid.
#[verifier::loop_isolation(false)]
fn lookahead_cost(
    n: usize,
    ups: &Vec<Vec<usize>>,
    costs: &Vec<usize>,
    todo: &IndexSet,
    c: usize,
) -> (r: usize)
    requires
        ups@.len() == n,
        costs@.len() == n,
        forall|i: int, j: int|
            0 <= i < ups@.len() && 0 <= j < ups@[i]@.len() ==> ((#[trigger] ups@[i]@[j]) as int)
                < n,
{
    let mut active = IndexSet::with_capacity(n);
    for down in 0..n {
        if todo.contains(down) && down != c {
            let row_len = ups[down].len();
            for j in 0..row_len
                invariant
                    row_len == ups@[down as int]@.len(),
            {
                let u = ups[down][j];
                if u == c || !todo.contains(u) {
                    active.insert(u);
                }
            }
        }
    }
    let mut acc: usize = 0;
    for i in 0..n {
        if active.contains(i) {
            acc = add_sat(acc, costs[i]);
        }
    }
    acc
}

/// Orders the ancestor closure of `model_outputs` so that every
/// producer precedes each of its consumers — the same contract as the
/// resolver, over inputs and extra dependencies alike and with no
/// model-input exemption — greedily keeping the estimated live-tensor
/// cost low. Fails when the closure holds a dependency cycle.
#[verifier::loop_isolation(false)]
#[verifier::rlimit(100)]
pub fn eval_order_for_nodes_memory(
    nodes: &Vec<Node>,
    _model_inputs: &Vec<usize>,
    model_outputs: &Vec<usize>,
    more_dependencies: &Vec<(usize, usize)>,
) -> (r: Result<Vec<usize>, OrderError>)
    requires
        nodes_wf(nodes@),
        extra_deps_wf(nodes@, more_dependencies@),
        idxs_wf(nodes@.len() as int, model_outputs@),
    ensures
        r is Ok ==> valid_order(
            nodes@,
            more_dependencies@,
            Seq::<usize>::empty(),
            model_outputs@,
            r->Ok_0@,
        ),
        r is Err ==> has_reachable_cycle(
            nodes@,
            more_dependencies@,
            Seq::<usize>::empty(),
            model_outputs@,
        ),
{
    let n = nodes.len();
    let ups = build_ups(nodes, more_dependencies);
    let mut costs: Vec<usize> = Vec::new();
    for i in 0..n
        invariant
            costs@.len() == i,
    {
        costs.push(node_cost(&nodes[i]));
    }
    let mut todo = required_set(nodes, more_dependencies, &ups, model_outputs);
    let mut remaining = todo.count();
    let mut order: Vec<usize> = Vec::new();
    while remaining > 0
        invariant
            elems(todo).finite(),
            remaining == elems(todo).len(),
            order@.no_duplicates(),
            forall|k: int| 0 <= k < order@.len() ==> ((#[trigger] order@[k]) as int) < nodes@.len(),
            forall|k: int|
                0 <= k < order@.len() ==> in_closure(
                    nodes@,
                    more_dependencies@,
                    Seq::<usize>::empty(),
                    model_outputs@,
                    #[trigger] order@[k],
                ),
            forall|x: usize|
                #[trigger] elems(todo).contains(x) ==> in_closure(
                    nodes@,
                    more_dependencies@,
                    Seq::<usize>::empty(),
                    model_outputs@,
                    x,
                ) && (x as int) < nodes@.len() && !order@.contains(x),
            forall|x: usize|
                in_closure(nodes@, more_dependencies@, Seq::<usize>::empty(), model_outputs@, x)
                    ==> elems(todo).contains(x) || order@.contains(x),
            respects_deps(nodes@, more_dependencies@, Seq::<usize>::empty(), order@),
        decreases elems(todo).len(),
    {
        let mut found = false;
        let mut best: usize = 0;
        let mut best_cost: usize = 0;
        for c in 0..n
            invariant
                found ==> elems(todo).contains(best) && (best as int) < nodes@.len() && (forall|
                    j: int,
                |
                    0 <= j < ups@[best as int]@.len() ==> !elems(todo).contains(
                        #[trigger] ups@[best as int]@[j],
                    )),
                !found ==> (forall|c2: usize|
                    (c2 as int) < c && #[trigger] elems(todo).contains(c2) ==> exists|j: int|
                        0 <= j < ups@[c2 as int]@.len() && elems(todo).contains(
                            ups@[c2 as int]@[j],
                        )),
        {
            if todo.contains(c) {
                if all_ups_scheduled(&ups[c], &todo) {
                    let m = lookahead_cost(n, &ups, &costs, &todo, c);
                    if !found || m < best_cost {
                        found = true;
                        best = c;
                        best_cost = m;
                    }
                }
            }
        }
        if !found {
            proof {
                let td = elems(todo);
                assert(exists|x0: usize| td.contains(x0)) by {
                    if forall|x0: usize| !td.contains(x0) {
                        assert(td =~= Set::<usize>::empty());
                    }
                }
                let x0 = choose|x0: usize| td.contains(x0);
                let succ: spec_fn(usize) -> usize = |x: usize|
                    choose|m: usize|
                        td.contains(m) && dep_edge(
                            nodes@,
                            more_dependencies@,
                            Seq::<usize>::empty(),
                            x,
                            m,
                        );
                assert forall|x: usize| td.contains(x) implies td.contains(#[trigger] succ(x))
                    && dep_edge(
                    nodes@,
                    more_dependencies@,
                    Seq::<usize>::empty(),
                    x,
                    succ(x),
                ) by {
                    let j = choose|j: int|
                        0 <= j < ups@[x as int]@.len() && td.contains(ups@[x as int]@[j]);
                    let m = ups@[x as int]@[j];
                    assert(ups@[x as int]@.contains(m));
                    lemma_is_up_is_dep_edge(nodes@, more_dependencies@, x, m);
                    assert(td.contains(m) && dep_edge(
                        nodes@,
                        more_dependencies@,
                        Seq::<usize>::empty(),
                        x,
                        m,
                    ));
                }
                lemma_stuck_set_has_cycle(nodes@, more_dependencies@, td, succ, seq![x0]);
                let (cx, cm, ck): (usize, usize, nat) = choose|cx: usize, cm: usize, ck: nat|
                    td.contains(cx) && dep_edge(
                        nodes@,
                        more_dependencies@,
                        Seq::<usize>::empty(),
                        cx,
                        cm,
                    ) && reaches(nodes@, more_dependencies@, Seq::<usize>::empty(), ck, cm, cx);
                assert(in_closure(
                    nodes@,
                    more_dependencies@,
                    Seq::<usize>::empty(),
                    model_outputs@,
                    cx,
                ) && dep_edge(nodes@, more_dependencies@, Seq::<usize>::empty(), cx, cm)
                    && reaches(nodes@, more_dependencies@, Seq::<usize>::empty(), ck, cm, cx));
            }
            return Err(OrderError::CycleDetected);
        }
        let ghost ord0 = order@;
        let ghost td0 = elems(todo);
        proof {
            lemma_no_dup_push(ord0, best);
            assert forall|dd: usize|
                #[trigger] dep_edge(
                    nodes@,
                    more_dependencies@,
                    Seq::<usize>::empty(),
                    best,
                    dd,
                ) implies ord0.contains(dd) by {
                lemma_is_up_is_dep_edge(nodes@, more_dependencies@, best, dd);
                assert(ups@[best as int]@.contains(dd));
                let j = ups@[best as int]@.lemma_contains_to_index(dd);
                assert(!elems(todo).contains(dd));
                lemma_in_closure_step(
                    nodes@,
                    more_dependencies@,
                    Seq::<usize>::empty(),
                    model_outputs@,
                    best,
                    dd,
                );
            }
        }
        order.push(best);
        todo.remove(best);
        remaining = remaining - 1;
        proof {
            let ordn = order@;
            assert forall|x: usize|
                in_closure(
                    nodes@,
                    more_dependencies@,
                    Seq::<usize>::empty(),
                    model_outputs@,
                    x,
                ) implies elems(todo).contains(x) || ordn.contains(x) by {
                if td0.contains(x) {
                    if x == best {
                        assert(ordn[ordn.len() - 1] == best);
                    }
                } else {
                    let k3 = choose|k3: int| 0 <= k3 < ord0.len() && ord0[k3] == x;
                    assert(ordn[k3] == x);
                }
            }
            assert forall|k2: int, dd: usize|
                0 <= k2 < ordn.len() && #[trigger] dep_edge(
                    nodes@,
                    more_dependencies@,
                    Seq::<usize>::empty(),
                    ordn[k2],
                    dd,
                ) implies exists|k3: int| 0 <= k3 < k2 && ordn[k3] == dd by {
                if k2 < ord0.len() {
                    assert(dep_edge(
                        nodes@,
                        more_dependencies@,
                        Seq::<usize>::empty(),
                        ord0[k2],
                        dd,
                    ));
                    let k3 = choose|k3: int| 0 <= k3 < k2 && ord0[k3] == dd;
                    assert(ordn[k3] == dd);
                } else {
                    assert(ordn[k2] == best);
                    assert(ord0.contains(dd));
                    let k3 = choose|k3: int| 0 <= k3 < ord0.len() && ord0[k3] == dd;
                    assert(ordn[k3] == dd);
                }
            }
        }
    }
    proof {
        elems(todo).lemma_len0_is_empty();
        assert forall|x: usize|
            in_closure(nodes@, more_dependencies@, Seq::<usize>::empty(), model_outputs@, x) implies
            order@.contains(x) by {
            assert(!elems(todo).contains(x));
        }
    }
    Ok(order)
}

} // verus!
