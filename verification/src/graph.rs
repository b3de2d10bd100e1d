//! The dependency graph engine: reachable sets, tree-hash propagation,
//! cycle detection and topological ordering.
//!
//! A graph over `n` nodes is given by `deps`, where `deps[i]` lists the
//! indices that node `i` depends on.  Builds must run dependencies first, so
//! a valid order places every element of `deps[i]` strictly before `i`.

use crate::reach::{
    enumerates, has_cycle, is_path, lemma_enumeration_xor_unique, lemma_ordered_acyclic,
    lemma_reachable_in_closed_set, lemma_reaches_self, lemma_reaches_step, lemma_reaches_trans,
    reaches, xor_seq,
};
use vstd::prelude::*;
use vstd::seq_lib::*;
use vstd::set_lib::*;

verus! {

/// Ghost view of an adjacency list.
pub open spec fn dep_view(deps: &Vec<Vec<usize>>) -> Seq<Seq<usize>> {
    deps@.map_values(|v: Vec<usize>| v@)
}

/// The edge relation of an adjacency list: `a -> b` when `b` is listed as a
/// dependency of `a`.
pub open spec fn edge_fn(dv: Seq<Seq<usize>>) -> spec_fn(int, int) -> bool {
    |a: int, b: int| 0 <= a < dv.len() && 0 <= b < dv.len() && dv[a].contains(b as usize)
}

/// Every listed dependency is a valid node index.
pub open spec fn wf_deps(dv: Seq<Seq<usize>>) -> bool {
    forall|i: int, k: int|
        0 <= i < dv.len() && 0 <= k < dv[i].len() ==> (#[trigger] dv[i][k]) < dv.len()
}

/// How many entries of a boolean sequence are set.
pub open spec fn count_true(s: Seq<bool>) -> nat
    decreases s.len(),
{
    if s.len() == 0 {
        0
    } else {
        count_true(s.drop_last()) + if s.last() {
            1nat
        } else {
            0nat
        }
    }
}

/// Setting an unset entry raises the count by one.
proof fn lemma_count_true_update(s: Seq<bool>, i: int)
    requires
        0 <= i < s.len(),
        !s[i],
    ensures
        count_true(s.update(i, true)) == count_true(s) + 1,
    decreases s.len(),
{
    if i == s.len() - 1 {
        assert(s.update(i, true).drop_last() =~= s.drop_last());
        assert(s.update(i, true).last());
    } else {
        assert(s.update(i, true).drop_last() =~= s.drop_last().update(i, true));
        assert(s.update(i, true).last() == s.last());
        lemma_count_true_update(s.drop_last(), i);
    }
}

/// The count never exceeds the length.
proof fn lemma_count_true_le(s: Seq<bool>)
    ensures
        count_true(s) <= s.len(),
    decreases s.len(),
{
    if s.len() > 0 {
        lemma_count_true_le(s.drop_last());
    }
}

/// A pointwise-larger sequence has at least as large a count.
proof fn lemma_count_true_mono(s1: Seq<bool>, s2: Seq<bool>)
    requires
        s1.len() == s2.len(),
        forall|i: int| 0 <= i < s1.len() && s1[i] ==> s2[i],
    ensures
        count_true(s1) <= count_true(s2),
    decreases s1.len(),
{
    if s1.len() > 0 {
        assert(forall|i: int|
            0 <= i < s1.len() - 1 && s1.drop_last()[i] ==> s2.drop_last()[i] == s2[i] && s1[i]
                == s1.drop_last()[i]);
        lemma_count_true_mono(s1.drop_last(), s2.drop_last());
        assert(s1.last() ==> s2.last());
    }
}

/// All dependencies of node `x` are marked in `visited`.
pub open spec fn deps_done(dv: Seq<Seq<usize>>, visited: Seq<bool>, x: int) -> bool {
    forall|k: int| 0 <= k < dv[x].len() ==> visited[#[trigger] dv[x][k] as int]
}

/// Collects, by depth-first traversal, exactly the nodes reachable from
/// `root` along dependency edges — `root` itself included.
pub fn reach_set(deps: &Vec<Vec<usize>>, root: usize) -> (out: Vec<usize>)
    requires
        wf_deps(dep_view(deps)),
        root < deps@.len(),
    ensures
        enumerates(
            edge_fn(dep_view(deps)),
            deps@.len() as int,
            out@.map_values(|u: usize| u as int),
            root as int,
        ),
{
    let ghost dv = dep_view(deps);
    let ghost e = edge_fn(dv);
    let ghost n = deps@.len() as int;
    let n_exec: usize = deps.len();
    let mut visited: Vec<bool> = vec![false; n_exec];
    let ghost init_visited = visited@;
    let mut out: Vec<usize> = Vec::new();
    let mut stack: Vec<usize> = Vec::new();
    visited[root] = true;
    out.push(root);
    stack.push(root);
    proof {
        lemma_reaches_self(e, root as int);
        lemma_count_true_update(init_visited, root as int);
        assert(count_true(visited@) <= visited@.len()) by {
            lemma_count_true_le(visited@);
        }
        assert(out@ =~= Seq::<usize>::empty().push(root));
        assert(out@[0] == root);
        assert(out@.contains(root));
        assert(stack@ =~= Seq::<usize>::empty().push(root));
        assert(stack@[0] == root);
        assert(stack@.contains(root));
        assert(forall|x: int| 0 <= x < n && x != root as int ==> !visited@[x]);
        assert forall|x: int| 0 <= x < n && visited@[x] implies out@.contains(x as usize) by {
            assert(x == root as int);
        }
        assert forall|x: int|
            0 <= x < n && visited@[x] && !stack@.contains(x as usize) implies #[trigger] deps_done(
            dv,
            visited@,
            x,
        ) by {
            assert(x == root as int);
            assert(stack@.contains(x as usize));
        }
    }
    while stack.len() > 0
        invariant
            dv == dep_view(deps),
            e == edge_fn(dv),
            n == deps@.len(),
            wf_deps(dv),
            root < n,
            n <= usize::MAX,
            visited@.len() == n,
            visited@[root as int],
            count_true(visited@) <= n,
            out@.no_duplicates(),
            forall|k: int| 0 <= k < out@.len() ==> (#[trigger] out@[k]) < n,
            forall|k: int| 0 <= k < out@.len() ==> visited@[#[trigger] out@[k] as int],
            forall|x: int| 0 <= x < n && visited@[x] ==> out@.contains(x as usize),
            forall|k: int| 0 <= k < stack@.len() ==> (#[trigger] stack@[k]) < n,
            forall|k: int| 0 <= k < stack@.len() ==> visited@[#[trigger] stack@[k] as int],
            forall|x: int| 0 <= x < n && visited@[x] ==> reaches(e, root as int, x),
            forall|x: int|
                0 <= x < n && visited@[x] && !stack@.contains(x as usize) ==> #[trigger] deps_done(
                    dv,
                    visited@,
                    x,
                ),
        decreases n - count_true(visited@), stack@.len(),
    {
        let ghost visited_at_start = visited@;
        let ghost stack_len_start = stack@.len();
        let ghost pre_stack = stack@;
        let u: usize = match stack.pop() {
            Some(x) => x,
            None => {
                proof {
                    assert(false);
                }
                0
            },
        };
        proof {
            assert(stack@ =~= pre_stack.drop_last());
            assert forall|x: int|
                0 <= x < n && visited@[x] && !stack@.contains(x as usize) && x
                    != u as int implies deps_done(dv, visited@, x) by {
                if pre_stack.contains(x as usize) {
                    let k2 = choose|k2: int|
                        0 <= k2 < pre_stack.len() && pre_stack[k2] == x as usize;
                    if k2 == pre_stack.len() - 1 {
                        assert(pre_stack.last() == u);
                        assert(x as usize == u);
                        assert(x == u as int);
                    } else {
                        assert(stack@[k2] == x as usize);
                        assert(stack@.contains(x as usize));
                    }
                } else {
                    assert(deps_done(dv, visited@, x));
                }
            }
        }
        let deg: usize = deps[u].len();
        let mut k: usize = 0;
        while k < deg
            invariant
                dv == dep_view(deps),
                e == edge_fn(dv),
                n == deps@.len(),
                wf_deps(dv),
                root < n,
                n <= usize::MAX,
                u < n,
                deg == dv[u as int].len(),
                k <= deg,
                visited@.len() == n,
                visited@[root as int],
                count_true(visited@) <= n,
                visited@[u as int],
                reaches(e, root as int, u as int),
                out@.no_duplicates(),
                forall|k2: int| 0 <= k2 < out@.len() ==> (#[trigger] out@[k2]) < n,
                forall|k2: int| 0 <= k2 < out@.len() ==> visited@[#[trigger] out@[k2] as int],
                forall|x: int| 0 <= x < n && visited@[x] ==> out@.contains(x as usize),
                forall|k2: int| 0 <= k2 < stack@.len() ==> (#[trigger] stack@[k2]) < n,
                forall|k2: int| 0 <= k2 < stack@.len() ==> visited@[#[trigger] stack@[k2] as int],
                forall|x: int| 0 <= x < n && visited@[x] ==> reaches(e, root as int, x),
                forall|x: int|
                    0 <= x < n && visited@[x] && !stack@.contains(x as usize) && x != u
                        ==> #[trigger] deps_done(dv, visited@, x),
                forall|k2: int| 0 <= k2 < k ==> visited@[#[trigger] dv[u as int][k2] as int],
                visited_at_start.len() == n,
                forall|x: int| 0 <= x < n && visited_at_start[x] ==> visited@[x],
                stack@.len() + count_true(visited_at_start) <= (stack_len_start - 1)
                    + count_true(visited@),
            decreases deg - k,
        {
            let d: usize = deps[u][k];
            proof {
                assert(dv[u as int][k as int] == d);
                assert(d < n);
            }
            if !visited[d] {
                let ghost pre_visited = visited@;
                let ghost pre_out = out@;
                let ghost pre_stack2 = stack@;
                proof {
                    lemma_count_true_update(visited@, d as int);
                    assert(e(u as int, d as int));
                    lemma_reaches_step(e, u as int, d as int);
                    lemma_reaches_trans(e, root as int, u as int, d as int);
                }
                visited[d] = true;
                proof {
                    lemma_count_true_le(visited@);
                    assert(!pre_out.contains(d)) by {
                        if pre_out.contains(d) {
                            let k2 = choose|k2: int| 0 <= k2 < pre_out.len() && pre_out[k2] == d;
                            assert(pre_visited[pre_out[k2] as int]);
                        }
                    }
                }
                out.push(d);
                stack.push(d);
                proof {
                    assert(out@ =~= pre_out.push(d));
                    assert(stack@ =~= pre_stack2.push(d));
                    assert(out@.no_duplicates()) by {
                        assert(forall|k1: int|
                            0 <= k1 < pre_out.len() ==> #[trigger] out@[k1] == pre_out[k1]);
                        assert(forall|k1: int|
                            0 <= k1 < pre_out.len() ==> out@[k1] != d);
                    }
                    assert forall|x: int|
                        0 <= x < n && visited@[x] implies out@.contains(x as usize) by {
                        if x == d as int {
                            assert(out@[out@.len() - 1] == d);
                        } else {
                            assert(pre_visited[x]);
                            let k2 = choose|k2: int|
                                0 <= k2 < pre_out.len() && pre_out[k2] == x as usize;
                            assert(out@[k2] == x as usize);
                        }
                    }
                    assert forall|x: int|
                        0 <= x < n && visited@[x] && !stack@.contains(x as usize) && x
                            != u as int implies deps_done(dv, visited@, x) by {
                        assert(stack@[stack@.len() - 1] == d);
                        assert(x != d as int);
                        assert(pre_visited[x]);
                        if pre_stack2.contains(x as usize) {
                            let k2 = choose|k2: int|
                                0 <= k2 < pre_stack2.len() && pre_stack2[k2] == x as usize;
                            assert(stack@[k2] == x as usize);
                        }
                        assert(deps_done(dv, pre_visited, x));
                        assert(forall|k2: int|
                            0 <= k2 < dv[x].len() ==> pre_visited[#[trigger] dv[x][k2] as int]
                                ==> visited@[dv[x][k2] as int]);
                    }
                }
            }
            k = k + 1;
        }
        proof {
            assert(deps_done(dv, visited@, u as int));
            lemma_count_true_mono(visited_at_start, visited@);
        }
    }
    proof {
        let s = out@.map_values(|u: usize| u as int);
        assert(s.no_duplicates()) by {
            assert(forall|k1: int, k2: int|
                0 <= k1 < k2 < s.len() ==> out@[k1] != out@[k2] && s[k1] == out@[k1] as int && s[k2]
                    == out@[k2] as int);
        }
        assert(forall|k: int| 0 <= k < s.len() ==> 0 <= #[trigger] s[k] < n);
        assert forall|k: int| 0 <= k < s.len() implies reaches(e, root as int, #[trigger] s[k]) by {
            assert(visited@[out@[k] as int]);
        }
        assert forall|t: int| 0 <= t < n && reaches(e, root as int, t) implies s.contains(t) by {
            let inset = |x: int| 0 <= x < n && visited@[x];
            assert forall|x: int, y: int| inset(x) && #[trigger] e(x, y) implies inset(y) by {
                assert(deps_done(dv, visited@, x));
                let ky = choose|ky: int| 0 <= ky < dv[x].len() && dv[x][ky] == y as usize;
                assert(visited@[dv[x][ky] as int]);
            }
            lemma_reachable_in_closed_set(e, inset, root as int, t);
            assert(out@.contains(t as usize));
            let k = choose|k: int| 0 <= k < out@.len() && out@[k] == t as usize;
            assert(s[k] == t);
        }
    }
    out
}


/// Maps each node to the XOR of the content hashes of every node reachable
/// from it (itself included): its tree hash.  The result is independent of
/// traversal order, stated here by quantifying over every enumeration of the
/// reachable set.
pub fn tree_hashes(deps: &Vec<Vec<usize>>, ch: &Vec<u64>) -> (r: Vec<u64>)
    requires
        wf_deps(dep_view(deps)),
        ch@.len() == deps@.len(),
    ensures
        r@.len() == deps@.len(),
        forall|i: int, s: Seq<int>|
            0 <= i < deps@.len() && enumerates(
                edge_fn(dep_view(deps)),
                deps@.len() as int,
                s,
                i,
            ) ==> r@[i] == xor_seq(s.map_values(|j: int| ch@[j])),
{
    let ghost dv = dep_view(deps);
    let ghost e = edge_fn(dv);
    let ghost n = deps@.len() as int;
    let mut r: Vec<u64> = Vec::new();
    let mut i: usize = 0;
    while i < deps.len()
        invariant
            dv == dep_view(deps),
            e == edge_fn(dv),
            n == deps@.len(),
            wf_deps(dv),
            ch@.len() == n,
            i <= n,
            r@.len() == i,
            forall|i2: int, s: Seq<int>|
                0 <= i2 < i && enumerates(e, n, s, i2) ==> r@[i2] == xor_seq(
                    s.map_values(|j: int| ch@[j]),
                ),
        decreases n - i,
    {
        let out: Vec<usize> = reach_set(deps, i);
        let ghost s0 = out@.map_values(|u: usize| u as int);
        let ghost m = s0.map_values(|j: int| ch@[j]);
        let mut h: u64 = 0;
        let mut k: usize = 0;
        proof {
            assert(m.take(0) =~= Seq::<u64>::empty());
        }
        while k < out.len()
            invariant
                n == deps@.len(),
                ch@.len() == n,
                s0 == out@.map_values(|u: usize| u as int),
                m == s0.map_values(|j: int| ch@[j]),
                forall|k2: int| 0 <= k2 < s0.len() ==> 0 <= #[trigger] s0[k2] < n,
                k <= out@.len(),
                h == xor_seq(m.take(k as int)),
            decreases out@.len() - k,
        {
            proof {
                assert(m.take(k + 1).drop_last() =~= m.take(k as int));
                assert(m.take(k + 1).last() == m[k as int]);
                assert(m[k as int] == ch@[s0[k as int]]);
                assert(s0[k as int] == out@[k as int] as int);
            }
            h = h ^ ch[out[k]];
            k = k + 1;
        }
        proof {
            assert(m.take(out@.len() as int) =~= m);
        }
        let ghost pre_r = r@;
        r.push(h);
        proof {
            assert forall|i2: int, s: Seq<int>|
                0 <= i2 < i + 1 && enumerates(e, n, s, i2) implies r@[i2] == xor_seq(
                s.map_values(|j: int| ch@[j]),
            ) by {
                if i2 == i as int {
                    lemma_enumeration_xor_unique(e, n, s, s0, i as int, ch@);
                    assert(r@[i2] == h);
                } else {
                    assert(pre_r[i2] == xor_seq(s.map_values(|j: int| ch@[j])));
                    assert(r@[i2] == pre_r[i2]);
                }
            }
        }
        i = i + 1;
    }
    r
}

/// Node colours of the ordering traversal.
pub const WHITE: u8 = 0;

/// The node is on the active traversal stack.
pub const GRAY: u8 = 1;

/// The node and its whole dependency closure are already ordered.
pub const BLACK: u8 = 2;

/// How many nodes are still unvisited.
pub open spec fn count_white(color: Seq<u8>) -> nat
    decreases color.len(),
{
    if color.len() == 0 {
        0
    } else {
        count_white(color.drop_last()) + if color.last() == WHITE {
            1nat
        } else {
            0nat
        }
    }
}

/// Re-colouring a white node lowers the count by one.
proof fn lemma_count_white_update(s: Seq<u8>, i: int, c: u8)
    requires
        0 <= i < s.len(),
        s[i] == WHITE,
        c != WHITE,
    ensures
        count_white(s.update(i, c)) == count_white(s) - 1,
    decreases s.len(),
{
    if i == s.len() - 1 {
        assert(s.update(i, c).drop_last() =~= s.drop_last());
        assert(s.update(i, c).last() == c);
    } else {
        assert(s.update(i, c).drop_last() =~= s.drop_last().update(i, c));
        assert(s.update(i, c).last() == s.last());
        lemma_count_white_update(s.drop_last(), i, c);
    }
}

/// Re-colouring a non-white node keeps the count.
proof fn lemma_count_white_keep(s: Seq<u8>, i: int, c: u8)
    requires
        0 <= i < s.len(),
        s[i] != WHITE,
        c != WHITE,
    ensures
        count_white(s.update(i, c)) == count_white(s),
    decreases s.len(),
{
    if i == s.len() - 1 {
        assert(s.update(i, c).drop_last() =~= s.drop_last());
        assert(s.update(i, c).last() == c);
    } else {
        assert(s.update(i, c).drop_last() =~= s.drop_last().update(i, c));
        assert(s.update(i, c).last() == s.last());
        lemma_count_white_keep(s.drop_last(), i, c);
    }
}

/// A sequence that is white in fewer places has no larger a count.
proof fn lemma_count_white_mono(s1: Seq<u8>, s2: Seq<u8>)
    requires
        s1.len() == s2.len(),
        forall|i: int| 0 <= i < s1.len() && s1[i] == WHITE ==> s2[i] == WHITE,
    ensures
        count_white(s1) <= count_white(s2),
    decreases s1.len(),
{
    if s1.len() > 0 {
        assert(forall|i: int|
            0 <= i < s1.len() - 1 && s1.drop_last()[i] == WHITE ==> s2.drop_last()[i] == s2[i]
                && s1[i] == s1.drop_last()[i]);
        lemma_count_white_mono(s1.drop_last(), s2.drop_last());
    }
}

/// Mutable traversal state of the ordering pass.
pub struct TopoState {
    /// Per-node colour: unvisited, on the stack, or fully ordered.
    pub color: Vec<u8>,
    /// Nodes emitted so far, dependencies always before dependents.
    pub order: Vec<usize>,
    /// The chain of nodes whose visits are still open; consecutive entries
    /// are joined by dependency edges.
    pub stack: Vec<usize>,
}

/// The traversal invariant tying colours, emitted order and active chain
/// together.
pub open spec fn topo_inv(
    dv: Seq<Seq<usize>>,
    color: Seq<u8>,
    order: Seq<usize>,
    stack: Seq<usize>,
) -> bool {
    &&& color.len() == dv.len()
    &&& forall|x: int|
        0 <= x < color.len() ==> (#[trigger] color[x]) == WHITE || color[x] == GRAY || color[x]
            == BLACK
    &&& order.no_duplicates()
    &&& forall|k: int|
        0 <= k < order.len() ==> (#[trigger] order[k]) < dv.len() && color[order[k] as int]
            == BLACK
    &&& forall|x: int| 0 <= x < color.len() && color[x] == BLACK ==> order.contains(x as usize)
    &&& forall|k: int, t: int|
        0 <= k < order.len() && 0 <= t < dv[order[k] as int].len() ==> order.take(k).contains(
            #[trigger] dv[order[k] as int][t],
        )
    &&& stack.no_duplicates()
    &&& forall|k: int|
        0 <= k < stack.len() ==> (#[trigger] stack[k]) < dv.len() && color[stack[k] as int]
            == GRAY
    &&& forall|x: int| 0 <= x < color.len() && color[x] == GRAY ==> stack.contains(x as usize)
    &&& forall|j: int| 1 <= j < stack.len() ==> dv[stack[j - 1] as int].contains(#[trigger] stack[j])
}


/// One depth-first visit of an unvisited node.  On success the node and its
/// whole dependency closure are emitted (dependencies first) and the active
/// chain is as it was; a returned node list witnesses a dependency cycle.
#[verifier::loop_isolation(false)]
#[verifier::rlimit(100)]
#[verifier::spinoff_prover]
fn topo_visit(deps: &Vec<Vec<usize>>, st: TopoState, v: usize) -> (res: (TopoState, Option<
    Vec<usize>,
>))
    requires
        wf_deps(dep_view(deps)),
        topo_inv(dep_view(deps), st.color@, st.order@, st.stack@),
        v < deps@.len(),
        st.color@[v as int] == WHITE,
        st.stack@.len() > 0 ==> dep_view(deps)[st.stack@.last() as int].contains(v),
    ensures
        res.1 is None ==> topo_inv(dep_view(deps), res.0.color@, res.0.order@, res.0.stack@),
        res.1 is None ==> res.0.color@.len() == st.color@.len(),
        res.1 is None ==> res.0.stack@ == st.stack@,
        res.1 is None ==> res.0.color@[v as int] == BLACK,
        res.1 is None ==> forall|x: int|
            0 <= x < st.color@.len() ==> (st.color@[x] == BLACK ==> res.0.color@[x] == BLACK) && (
            st.color@[x] == GRAY <==> res.0.color@[x] == GRAY) && (res.0.color@[x] != st.color@[x]
                ==> st.color@[x] == WHITE && res.0.color@[x] == BLACK),
        res.1 is None ==> res.0.order@.len() >= st.order@.len() && forall|k: int|
            0 <= k < st.order@.len() ==> res.0.order@[k] == st.order@[k],
        res.1 is Some ==> has_cycle(edge_fn(dep_view(deps))),
        res.1 matches Some(cyc) ==> cyc@.len() >= 2,
    decreases count_white(st.color@),
{
    let ghost dv = dep_view(deps);
    let ghost e = edge_fn(dv);
    let ghost n = dv.len() as int;
    let n_exec: usize = deps.len();
    proof {
        assert(n == n_exec as int);
    }
    let ghost c0 = st.color@;
    let ghost stack0 = st.stack@;
    let ghost order0 = st.order@;
    let mut st = st;
    st.color[v] = GRAY;
    proof {
        lemma_count_white_update(c0, v as int, GRAY);
        assert(!stack0.contains(v)) by {
            if stack0.contains(v) {
                let k = choose|k: int| 0 <= k < stack0.len() && stack0[k] == v;
                assert(c0[stack0[k] as int] == GRAY);
            }
        }
    }
    st.stack.push(v);
    proof {
        assert(st.stack@ =~= stack0.push(v));
        assert(st.stack@.no_duplicates()) by {
            assert(forall|k: int| 0 <= k < stack0.len() ==> #[trigger] st.stack@[k] == stack0[k]);
            assert(st.stack@[stack0.len() as int] == v);
        }
        assert(st.order@ == order0);
        assert(topo_inv(dv, st.color@, st.order@, st.stack@)) by {
            assert forall|k: int| 0 <= k < st.order@.len() implies (#[trigger] st.order@[k])
                < dv.len() && st.color@[st.order@[k] as int] == BLACK by {
                assert(c0[st.order@[k] as int] == BLACK);
                assert(st.order@[k] as int != v as int);
            }
            assert forall|k: int, t: int|
                0 <= k < st.order@.len() && 0 <= t < dv[st.order@[k] as int].len() implies st.order@
                .take(k).contains(#[trigger] dv[st.order@[k] as int][t]) by {
                assert(order0.take(k).contains(dv[order0[k] as int][t]));
            }
            assert forall|x: int|
                0 <= x < st.color@.len() && st.color@[x] == BLACK implies st.order@.contains(
                x as usize,
            ) by {
                assert(x != v as int);
                assert(c0[x] == BLACK);
            }
            assert forall|k: int| 0 <= k < st.stack@.len() implies (#[trigger] st.stack@[k])
                < dv.len() && st.color@[st.stack@[k] as int] == GRAY by {
                if k < stack0.len() {
                    assert(st.stack@[k] == stack0[k]);
                    assert(c0[stack0[k] as int] == GRAY);
                    assert(stack0[k] as int != v as int);
                } else {
                    assert(st.stack@[k] == v);
                }
            }
            assert forall|x: int|
                0 <= x < st.color@.len() && st.color@[x] == GRAY implies st.stack@.contains(
                x as usize,
            ) by {
                if x == v as int {
                    assert(st.stack@[stack0.len() as int] == v);
                } else {
                    assert(c0[x] == GRAY);
                    let k = choose|k: int| 0 <= k < stack0.len() && stack0[k] == x as usize;
                    assert(st.stack@[k] == x as usize);
                }
            }
            assert forall|j: int| 1 <= j < st.stack@.len() implies dv[st.stack@[j - 1] as int]
                .contains(#[trigger] st.stack@[j]) by {
                if j < stack0.len() {
                    assert(st.stack@[j - 1] == stack0[j - 1] && st.stack@[j] == stack0[j]);
                } else {
                    assert(st.stack@[j] == v && st.stack@[j - 1] == stack0.last());
                }
            }
        }
    }
    let deg: usize = deps[v].len();
    let mut k: usize = 0;
    while k < deg
        invariant
            dv == dep_view(deps),
            e == edge_fn(dv),
            n == dv.len(),
            wf_deps(dv),
            v < n,
            deg == dv[v as int].len(),
            k <= deg,
            st.color@.len() == n,
            topo_inv(dv, st.color@, st.order@, st.stack@),
            st.stack@ == stack0.push(v),
            st.color@[v as int] == GRAY,
            count_white(st.color@) <= count_white(c0) - 1,
            forall|t: int|
                0 <= t < k ==> st.color@[#[trigger] dv[v as int][t] as int] == BLACK,
            forall|x: int|
                0 <= x < n && x != v as int ==> (c0[x] == GRAY <==> st.color@[x] == GRAY) && (c0[x]
                    == BLACK ==> st.color@[x] == BLACK) && (st.color@[x] != c0[x] ==> c0[x]
                    == WHITE && st.color@[x] == BLACK),
            st.order@.len() >= order0.len(),
            forall|k2: int| 0 <= k2 < order0.len() ==> st.order@[k2] == order0[k2],
        decreases deg - k,
    {
        let d: usize = deps[v][k];
        proof {
            assert(dv[v as int][k as int] == d);
            assert(d < n);
        }
        let c: u8 = st.color[d];
        if c == WHITE {
            proof {
                assert(st.stack@.last() == v);
                assert(dv[st.stack@.last() as int].contains(d)) by {
                    assert(dv[v as int][k as int] == d);
                }
            }
            let ghost cpre = st.color@;
            let ghost opre = st.order@;
            let res = topo_visit(deps, st, d);
            st = res.0;
            match res.1 {
                Some(cyc) => {
                    return (st, Some(cyc));
                },
                None => {},
            }
            proof {
                lemma_count_white_mono(st.color@, cpre);
                assert forall|t: int|
                    0 <= t < k + 1 implies st.color@[#[trigger] dv[v as int][t] as int]
                    == BLACK by {
                    if t < k {
                        assert(cpre[dv[v as int][t] as int] == BLACK);
                    }
                }
            }
        } else if c == GRAY {
            let mut j: usize = 0;
            proof {
                assert(st.stack@.contains(d));
            }
            while j < st.stack.len() && st.stack[j] != d
                invariant
                    st.stack@.contains(d),
                    j <= st.stack@.len(),
                    forall|t: int| 0 <= t < j ==> st.stack@[t] != d,
                decreases st.stack@.len() - j,
            {
                j = j + 1;
            }
            proof {
                assert(j < st.stack@.len()) by {
                    if j == st.stack@.len() {
                        let t = choose|t: int| 0 <= t < st.stack@.len() && st.stack@[t] == d;
                        assert(st.stack@[t] != d);
                    }
                }
                assert(st.stack@[j as int] == d);
            }
            let mut cyc: Vec<usize> = Vec::new();
            let mut t: usize = j;
            while t < st.stack.len()
                invariant
                    j <= t <= st.stack@.len(),
                    j < st.stack@.len(),
                    cyc@.len() == t - j,
                    forall|q: int| 0 <= q < cyc@.len() ==> #[trigger] cyc@[q] == st.stack@[j + q],
                decreases st.stack@.len() - t,
            {
                let x: usize = st.stack[t];
                cyc.push(x);
                t = t + 1;
            }
            cyc.push(d);
            proof {
                let p = cyc@.map_values(|u: usize| u as int);
                let m = st.stack@.len() as int;
                assert(cyc@.len() == m - j + 1);
                assert(p.len() >= 2);
                assert forall|q: int| 1 <= q < p.len() implies e(p[q - 1], #[trigger] p[q]) by {
                    if q < p.len() - 1 {
                        assert(cyc@[q - 1] == st.stack@[j + q - 1]);
                        assert(cyc@[q] == st.stack@[j + q]);
                        assert(dv[st.stack@[j + q - 1] as int].contains(st.stack@[j + q]));
                    } else {
                        assert(cyc@[q - 1] == st.stack@[m - 1]);
                        assert(st.stack@[m - 1] == v);
                        assert(cyc@[q] == d);
                        assert(dv[v as int][k as int] == d);
                        assert(dv[v as int].contains(d));
                    }
                }
                assert(is_path(e, p));
                assert(p.first() == st.stack@[j as int] as int);
                assert(p.first() == d as int && p.last() == d as int);
                assert(has_cycle(e));
            }
            return (st, Some(cyc));
        }
        k = k + 1;
    }
    let ghost cmid = st.color@;
    let ghost stackmid = st.stack@;
    let ghost ordermid = st.order@;
    st.stack.pop();
    st.color[v] = BLACK;
    st.order.push(v);
    proof {
        assert(st.stack@ =~= stack0 && st.color@ == cmid.update(v as int, BLACK) && topo_inv(
            dv,
            st.color@,
            st.order@,
            st.stack@,
        )) by {
        lemma_count_white_keep(cmid, v as int, BLACK);
        assert(st.stack@ =~= stack0);
        assert(st.order@ =~= ordermid.push(v));
        assert(!ordermid.contains(v)) by {
            if ordermid.contains(v) {
                let k2 = choose|k2: int| 0 <= k2 < ordermid.len() && ordermid[k2] == v;
                assert(cmid[ordermid[k2] as int] == BLACK);
            }
        }
        assert(st.order@.no_duplicates()) by {
            assert(forall|k2: int|
                0 <= k2 < ordermid.len() ==> #[trigger] st.order@[k2] == ordermid[k2]);
            assert(st.order@[ordermid.len() as int] == v);
        }
        assert(topo_inv(dv, st.color@, st.order@, st.stack@)) by {
            assert forall|k2: int| 0 <= k2 < st.order@.len() implies (#[trigger] st.order@[k2])
                < dv.len() && st.color@[st.order@[k2] as int] == BLACK by {
                if k2 < ordermid.len() {
                    assert(cmid[ordermid[k2] as int] == BLACK);
                } else {
                    assert(st.order@[k2] == v);
                }
            }
            assert forall|x: int|
                0 <= x < st.color@.len() && st.color@[x] == BLACK implies st.order@.contains(
                x as usize,
            ) by {
                if x == v as int {
                    assert(st.order@[ordermid.len() as int] == v);
                } else {
                    assert(cmid[x] == BLACK);
                    let k2 = choose|k2: int| 0 <= k2 < ordermid.len() && ordermid[k2] == x as usize;
                    assert(st.order@[k2] == x as usize);
                }
            }
            assert forall|k2: int, t: int|
                0 <= k2 < st.order@.len() && 0 <= t < dv[st.order@[k2] as int].len() implies st
                .order@.take(k2).contains(#[trigger] dv[st.order@[k2] as int][t]) by {
                if k2 < ordermid.len() {
                    assert(ordermid[k2] == st.order@[k2]);
                    assert(st.order@.take(k2) =~= ordermid.take(k2));
                    assert(ordermid.take(k2).contains(dv[ordermid[k2] as int][t]));
                } else {
                    assert(st.order@[k2] == v);
                    let dep = dv[v as int][t];
                    assert(cmid[dep as int] == BLACK);
                    assert(ordermid.contains(dep));
                    assert(st.order@.take(k2) =~= ordermid);
                }
            }
            assert forall|x: int|
                0 <= x < st.color@.len() && st.color@[x] == GRAY implies st.stack@.contains(
                x as usize,
            ) by {
                assert(x != v as int);
                assert(cmid[x] == GRAY);
                assert(stackmid.contains(x as usize));
                let k2 = choose|k2: int| 0 <= k2 < stackmid.len() && stackmid[k2] == x as usize;
                assert(k2 < stackmid.len() - 1) by {
                    assert(stackmid[stackmid.len() - 1] == v);
                }
                assert(st.stack@[k2] == x as usize);
            }
        }
        }
        lemma_count_white_keep(cmid, v as int, BLACK);
    }
    (st, None)
}

/// Orders the graph so that every dependency comes strictly before each of
/// its dependents, or returns the nodes of a dependency cycle.  An order
/// exists exactly when the graph has no cycle.
pub fn topo_sort(deps: &Vec<Vec<usize>>) -> (res: Result<Vec<usize>, Vec<usize>>)
    requires
        wf_deps(dep_view(deps)),
    ensures
        res matches Ok(ord) ==> {
            &&& ord@.len() == deps@.len()
            &&& ord@.no_duplicates()
            &&& forall|k: int| 0 <= k < ord@.len() ==> (#[trigger] ord@[k]) < deps@.len()
            &&& forall|k: int, t: int|
                0 <= k < ord@.len() && 0 <= t < dep_view(deps)[ord@[k] as int].len() ==> ord@.take(
                    k,
                ).contains(#[trigger] dep_view(deps)[ord@[k] as int][t])
            &&& !has_cycle(edge_fn(dep_view(deps)))
        },
        res matches Err(cyc) ==> has_cycle(edge_fn(dep_view(deps))) && cyc@.len() >= 2,
{
    let ghost dv = dep_view(deps);
    let ghost e = edge_fn(dv);
    let ghost n = dv.len() as int;
    let n_exec: usize = deps.len();
    let mut st = TopoState { color: vec![WHITE; n_exec], order: Vec::new(), stack: Vec::new() };
    let mut v: usize = 0;
    while v < n_exec
        invariant
            dv == dep_view(deps),
            e == edge_fn(dv),
            n == dv.len(),
            n == n_exec,
            wf_deps(dv),
            v <= n_exec,
            st.color@.len() == n,
            topo_inv(dv, st.color@, st.order@, st.stack@),
            st.stack@.len() == 0,
            forall|x: int| 0 <= x < v ==> st.color@[x] == BLACK,
        decreases n_exec - v,
    {
        let c: u8 = st.color[v];
        if c == WHITE {
            let ghost pre_color = st.color@;
            let res = topo_visit(deps, st, v);
            st = res.0;
            match res.1 {
                Some(cyc) => {
                    return Err(cyc);
                },
                None => {},
            }
            proof {
                assert(st.color@[v as int] == BLACK);
                assert forall|x: int| 0 <= x < v + 1 implies st.color@[x] == BLACK by {
                    if x < v {
                        assert(pre_color[x] == BLACK);
                    }
                }
            }
        } else {
            proof {
                assert(c == GRAY || c == BLACK);
                if c == GRAY {
                    assert(st.stack@.contains(v));
                }
            }
        }
        v = v + 1;
    }
    proof {
        assert forall|x: int| 0 <= x < n implies st.color@[x] == BLACK by {}
        assert forall|x: int| 0 <= x < n implies st.order@.contains(#[trigger] (x as usize)) by {
            assert(st.color@[x] == BLACK);
        }
        let ord_int = st.order@.map_values(|u: usize| u as int);
        assert(ord_int.no_duplicates()) by {
            assert(forall|k1: int, k2: int|
                0 <= k1 < k2 < ord_int.len() ==> st.order@[k1] != st.order@[k2] && ord_int[k1]
                    == st.order@[k1] as int && ord_int[k2] == st.order@[k2] as int);
        }
        assert(st.order@.len() == n) by {
            lemma_order_covers(st.order@, n);
        }
        assert forall|a: int, b: int| #[trigger] e(a, b) implies ord_int.contains(a)
            && ord_int.contains(b) && ord_int.index_of(b) < ord_int.index_of(a) by {
            lemma_edge_backwards(dv, st.order@, ord_int, a, b);
        }
        lemma_ordered_acyclic(e, ord_int);
    }
    Ok(st.order)
}

/// A duplicate-free sequence of indices below `n` that contains every index
/// has length exactly `n`.
proof fn lemma_order_covers(order: Seq<usize>, n: int)
    requires
        n >= 0,
        n <= usize::MAX,
        order.no_duplicates(),
        forall|k: int| 0 <= k < order.len() ==> (#[trigger] order[k]) < n,
        forall|x: int| 0 <= x < n ==> order.contains(#[trigger] (x as usize)),
    ensures
        order.len() == n,
{
    broadcast use vstd::set::group_set_axioms;
    broadcast use vstd::seq_lib::seq_to_set_is_finite;

    let s = order.map_values(|u: usize| u as int);
    assert(s.no_duplicates()) by {
        assert(forall|k1: int, k2: int|
            0 <= k1 < k2 < s.len() ==> order[k1] != order[k2] && s[k1] == order[k1] as int && s[k2]
                == order[k2] as int);
    }
    s.unique_seq_to_set();
    let range = vstd::set_lib::set_int_range(0, n);
    vstd::set_lib::lemma_int_range(0, n);
    assert(s.to_set() =~= range) by {
        assert forall|x: int| range.contains(x) implies s.to_set().contains(x) by {
            assert(order.contains(x as usize));
            let k = choose|k: int| 0 <= k < order.len() && order[k] == x as usize;
            assert(s[k] == x);
            assert(s.contains(x));
        }
        assert forall|x: int| s.to_set().contains(x) implies range.contains(x) by {
            assert(s.contains(x));
            let k = choose|k: int| 0 <= k < s.len() && s[k] == x;
            assert(order[k] < n);
        }
    }
}

/// In a complete order, every dependency edge points strictly backwards.
proof fn lemma_edge_backwards(
    dv: Seq<Seq<usize>>,
    order: Seq<usize>,
    ord_int: Seq<int>,
    a: int,
    b: int,
)
    requires
        dv.len() <= usize::MAX,
        ord_int == order.map_values(|u: usize| u as int),
        order.no_duplicates(),
        ord_int.no_duplicates(),
        order.len() == dv.len(),
        forall|k: int| 0 <= k < order.len() ==> (#[trigger] order[k]) < dv.len(),
        forall|x: int| 0 <= x < dv.len() ==> order.contains(#[trigger] (x as usize)),
        forall|k: int, t: int|
            0 <= k < order.len() && 0 <= t < dv[order[k] as int].len() ==> order.take(k).contains(
                #[trigger] dv[order[k] as int][t],
            ),
        edge_fn(dv)(a, b),
    ensures
        ord_int.contains(a),
        ord_int.contains(b),
        ord_int.index_of(b) < ord_int.index_of(a),
{
    assert(0 <= a < dv.len() && 0 <= b < dv.len());
    assert(order.contains(a as usize));
    let ka = choose|k: int| 0 <= k < order.len() && order[k] == a as usize;
    assert(ord_int[ka] == a);
    assert(ord_int.contains(a));
    assert(dv[a].contains(b as usize));
    let t = choose|t: int| 0 <= t < dv[a].len() && dv[a][t] == b as usize;
    assert(dv[order[ka] as int][t] == b as usize);
    assert(order.take(ka).contains(dv[order[ka] as int][t]));
    let m = choose|m: int| 0 <= m < order.take(ka).len() && order.take(ka)[m] == b as usize;
    assert(order[m] == b as usize);
    assert(0 <= m < ka);
    assert(ord_int[m] == b);
    assert(ord_int.contains(b));
    let ia = ord_int.index_of(a);
    let ib = ord_int.index_of(b);
    assert(0 <= ia < ord_int.len() && ord_int[ia] == a);
    assert(0 <= ib < ord_int.len() && ord_int[ib] == b);
    assert(ia == ka) by {
        if ia != ka {
            assert(ord_int[ia] == ord_int[ka]);
        }
    }
    assert(ib == m) by {
        if ib != m {
            assert(ord_int[ib] == ord_int[m]);
        }
    }
}

} // verus!


