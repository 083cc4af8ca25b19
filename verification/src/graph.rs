//! Ordering of a provider dependency graph into waves (Kahn's algorithm):
//! every wave holds the nodes whose known dependencies all lie in earlier
//! waves, so the nodes of one wave can be resolved concurrently.
//!
//! Nodes are numbered `0..n`; `node_deps[v]` lists the nodes that `v`
//! depends on. A dependency that is not a node (an index `>= n`) is unknown
//! and ignored. Within a wave nodes are listed in increasing order.
use vstd::prelude::*;
use crate::error::{Error, ErrorKind, graph_validation_failed_text};

verus! {

/// Node `v`'s `j`-th dependency exists and names a known node.
pub open spec fn known_dep(deps: Seq<Seq<usize>>, v: int, j: int) -> bool {
    0 <= j < deps[v].len() && deps[v][j] < deps.len()
}

/// The dependency lists as sequences.
pub open spec fn deps_view(node_deps: Seq<Vec<usize>>) -> Seq<Seq<usize>> {
    node_deps.map_values(|d: Vec<usize>| d@)
}

/// The waves as sequences.
pub open spec fn waves_view(waves: Seq<Vec<usize>>) -> Seq<Seq<usize>> {
    waves.map_values(|w: Vec<usize>| w@)
}

/// The wave that holds node `v`.
pub open spec fn level_of(ws: Seq<Seq<usize>>, v: usize) -> int {
    choose|k: int| 0 <= k < ws.len() && ws[k].contains(v)
}

pub open spec fn strictly_increasing(s: Seq<usize>) -> bool {
    forall|i: int, j: int| 0 <= i < j < s.len() ==> s[i] < s[j]
}

/// Node `v` lies in some wave.
pub open spec fn placed(ws: Seq<Seq<usize>>, v: usize) -> bool {
    exists|k: int| 0 <= k < ws.len() && #[trigger] ws[k].contains(v)
}

/// `ws` is the wave decomposition of the graph: the waves are nonempty and
/// sorted, every node lies in exactly one wave, and the wave of a node is
/// one more than the latest wave among its known dependencies (the first
/// wave for a node without known dependencies).
pub open spec fn is_wave_decomposition(deps: Seq<Seq<usize>>, ws: Seq<Seq<usize>>) -> bool {
    &&& is_leveling(deps, ws)
    &&& forall|k: int| #![trigger ws[k]] 0 <= k < ws.len() ==> strictly_increasing(ws[k])
}

/// `ws` orders the graph into waves as [`is_wave_decomposition`] says,
/// whatever the order of the nodes within each wave.
pub open spec fn is_leveling(deps: Seq<Seq<usize>>, ws: Seq<Seq<usize>>) -> bool {
    &&& forall|k: int|
        #![trigger ws[k]]
        0 <= k < ws.len() ==> {
            &&& ws[k].len() > 0
            &&& forall|i: int| 0 <= i < ws[k].len() ==> ws[k][i] < deps.len()
        }
    &&& forall|v: int| 0 <= v < deps.len() ==> #[trigger] placed(ws, v as usize)
    &&& forall|k: int, i: int|
        0 <= k < ws.len() && 0 <= i < ws[k].len() ==> level_of(ws, #[trigger] ws[k][i]) == k
    &&& forall|v: int, j: int|
        0 <= v < deps.len() && #[trigger] known_dep(deps, v, j) ==> level_of(ws, deps[v][j]) < level_of(
            ws,
            v as usize,
        )
    &&& forall|v: int|
        0 <= v < deps.len() && #[trigger] level_of(ws, v as usize) > 0 ==> exists|j: int|
            #[trigger] known_dep(deps, v, j) && level_of(ws, deps[v][j]) == level_of(ws, v as usize)
                - 1
}

/// Some nonempty set of nodes depends only on itself: each of its nodes has
/// a known dependency inside the set, so none of them can ever be ordered.
pub open spec fn has_dependency_cycle(deps: Seq<Seq<usize>>) -> bool {
    exists|stuck: Set<int>| #[trigger] closed_node_set(deps, stuck)
}

pub open spec fn closed_node_set(deps: Seq<Seq<usize>>, stuck: Set<int>) -> bool {
    &&& exists|v: int| stuck.contains(v)
    &&& forall|v: int|
        #[trigger] stuck.contains(v) ==> 0 <= v < deps.len() && exists|j: int|
            known_dep(deps, v, j) && stuck.contains(deps[v][j] as int)
}

/// The message detail of the error for a cyclic graph.
pub open spec fn cycle_error_text() -> Seq<char> {
    graph_validation_failed_text("circular dependency detected during eager resolution"@)
}

/// Number of `true` entries.
pub open spec fn count_true(s: Seq<bool>) -> nat
    decreases s.len(),
{
    if s.len() == 0 {
        0
    } else {
        count_true(s.drop_last()) + if s.last() { 1nat } else { 0nat }
    }
}

proof fn lemma_count_true_bound(s: Seq<bool>)
    ensures
        count_true(s) <= s.len(),
        count_true(s) < s.len() ==> exists|i: int| 0 <= i < s.len() && !s[i],
    decreases s.len(),
{
    if s.len() > 0 {
        lemma_count_true_bound(s.drop_last());
        if count_true(s) < s.len() && s.last() {
            let i = choose|i: int| 0 <= i < s.drop_last().len() && !s.drop_last()[i];
            assert(!s[i]);
        }
    }
}

proof fn lemma_count_true_set(s: Seq<bool>, x: int)
    requires
        0 <= x < s.len(),
        !s[x],
    ensures
        count_true(s.update(x, true)) == count_true(s) + 1,
    decreases s.len(),
{
    if x == s.len() - 1 {
        assert(s.update(x, true).drop_last() =~= s.drop_last());
    } else {
        lemma_count_true_set(s.drop_last(), x);
        assert(s.update(x, true).drop_last() =~= s.drop_last().update(x, true));
    }
}

/// All known dependencies of a node are marked done.
fn deps_done(deps: &Vec<usize>, done: &Vec<bool>) -> (r: bool)
    ensures
        r == forall|j: int| 0 <= j < deps@.len() && deps@[j] < done@.len() ==> done@[deps@[j] as int],
{
    let mut j: usize = 0;
    while j < deps.len()
        invariant
            0 <= j <= deps@.len(),
            forall|i: int| 0 <= i < j && deps@[i] < done@.len() ==> done@[deps@[i] as int],
        decreases deps@.len() - j,
    {
        let d = deps[j];
        if d < done.len() && !done[d] {
            return false;
        }
        j = j + 1;
    }
    true
}

/// Node `v` is not done but all its known dependencies are.
pub open spec fn ready(deps: Seq<Seq<usize>>, done: Seq<bool>, v: int) -> bool {
    &&& !done[v]
    &&& forall|j: int| #[trigger] known_dep(deps, v, j) ==> done[deps[v][j] as int]
}

/// The nodes ready against `done`, in increasing order, and as a mask.
fn ready_nodes(node_deps: &Vec<Vec<usize>>, done: &Vec<bool>) -> (r: (Vec<usize>, Vec<bool>))
    requires
        done@.len() == node_deps@.len(),
    ensures
        strictly_increasing(r.0@),
        forall|i: int| 0 <= i < r.0@.len() ==> r.0@[i] < node_deps@.len(),
        r.1@.len() == node_deps@.len(),
        forall|v: int|
            0 <= v < node_deps@.len() ==> (#[trigger] r.0@.contains(v as usize) <==> ready(
                deps_view(node_deps@),
                done@,
                v,
            )),
        forall|v: int|
            0 <= v < node_deps@.len() ==> (#[trigger] r.1@[v] <==> ready(
                deps_view(node_deps@),
                done@,
                v,
            )),
{
    let ghost deps = deps_view(node_deps@);
    let n = node_deps.len();
    let mut wave: Vec<usize> = Vec::new();
    let mut mask: Vec<bool> = Vec::new();
    let mut v: usize = 0;
    while v < n
        invariant
            n == node_deps@.len(),
            done@.len() == n,
            deps == deps_view(node_deps@),
            0 <= v <= n,
            mask@.len() == v,
            strictly_increasing(wave@),
            forall|i: int| 0 <= i < wave@.len() ==> wave@[i] < v,
            forall|u: int|
                0 <= u < v ==> (#[trigger] wave@.contains(u as usize) <==> ready(deps, done@, u)),
            forall|u: int| 0 <= u < v ==> (#[trigger] mask@[u] <==> ready(deps, done@, u)),
        decreases n - v,
    {
        let is_ready = !done[v] && deps_done(&node_deps[v], done);
        proof {
            assert(deps[v as int] == node_deps@[v as int]@);
            assert(is_ready == ready(deps, done@, v as int)) by {
                if is_ready {
                    assert forall|j: int| #[trigger] known_dep(deps, v as int, j) implies done@[deps[v as int][j] as int] by {}
                } else if !done@[v as int] {
                    let j = choose|j: int| 0 <= j < deps[v as int].len() && deps[v as int][j] < done@.len() && !done@[deps[v as int][j] as int];
                    assert(known_dep(deps, v as int, j));
                }
            }
        }
        let ghost before = wave@;
        if is_ready {
            wave.push(v);
        }
        mask.push(is_ready);
        proof {
            assert forall|u: int| 0 <= u < v + 1 implies (#[trigger] wave@.contains(u as usize) <==> ready(deps, done@, u)) by {
                if wave@.contains(u as usize) {
                    let i = choose|i: int| 0 <= i < wave@.len() && wave@[i] == u as usize;
                    if i < before.len() {
                        assert(before[i] == u as usize);
                        assert(before.contains(u as usize));
                    }
                }
                if u < v && before.contains(u as usize) {
                    let i = choose|i: int| 0 <= i < before.len() && before[i] == u as usize;
                    assert(wave@[i] == u as usize);
                }
                if u == v && is_ready {
                    assert(wave@[before.len() as int] == v);
                }
                if u == v && before.contains(u as usize) {
                    let i = choose|i: int| 0 <= i < before.len() && before[i] == u as usize;
                    assert(before[i] < v);
                }
            }
        }
        v = v + 1;
    }
    (wave, mask)
}

proof fn lemma_count_all_false(s: Seq<bool>)
    requires
        forall|i: int| 0 <= i < s.len() ==> !s[i],
    ensures
        count_true(s) == 0,
    decreases s.len(),
{
    if s.len() > 0 {
        lemma_count_all_false(s.drop_last());
    }
}

proof fn lemma_count_true_full(s: Seq<bool>)
    requires
        count_true(s) == s.len(),
    ensures
        forall|i: int| 0 <= i < s.len() ==> s[i],
    decreases s.len(),
{
    if s.len() > 0 {
        lemma_count_true_bound(s.drop_last());
        lemma_count_true_full(s.drop_last());
        assert forall|i: int| 0 <= i < s.len() implies s[i] by {
            if i < s.len() - 1 {
                assert(s.drop_last()[i] == s[i]);
            }
        }
    }
}

/// Wave levels of all nodes determine the wave decomposition.
proof fn lemma_levels_give_decomposition(deps: Seq<Seq<usize>>, lvl: Seq<int>, ws: Seq<Seq<usize>>)
    requires
        lvl.len() == deps.len(),
        forall|v: int| 0 <= v < deps.len() ==> 0 <= #[trigger] lvl[v] < ws.len(),
        forall|k: int|
            #![trigger ws[k]]
            0 <= k < ws.len() ==> {
                &&& ws[k].len() > 0
                &&& strictly_increasing(ws[k])
                &&& forall|i: int|
                    0 <= i < ws[k].len() ==> ws[k][i] < deps.len() && lvl[ws[k][i] as int] == k
            },
        forall|v: int| 0 <= v < deps.len() ==> ws[#[trigger] lvl[v]].contains(v as usize),
        forall|v: int, j: int|
            0 <= v < deps.len() && #[trigger] known_dep(deps, v, j) ==> lvl[deps[v][j] as int] < lvl[v],
        forall|v: int|
            0 <= v < deps.len() && #[trigger] lvl[v] > 0 ==> exists|j: int|
                #[trigger] known_dep(deps, v, j) && lvl[deps[v][j] as int] == lvl[v] - 1,
    ensures
        is_wave_decomposition(deps, ws),
{
    assert forall|v: int| 0 <= v < deps.len() implies #[trigger] level_of(ws, v as usize) == lvl[v] by {
        assert(ws[lvl[v]].contains(v as usize));
        let k = level_of(ws, v as usize);
        assert(0 <= k < ws.len() && ws[k].contains(v as usize));
        let i = choose|i: int| 0 <= i < ws[k].len() && ws[k][i] == v as usize;
        assert(lvl[ws[k][i] as int] == k);
    }
    assert forall|v: int| 0 <= v < deps.len() implies #[trigger] placed(ws, v as usize) by {
        assert(ws[lvl[v]].contains(v as usize));
    }
    assert forall|k: int, i: int| 0 <= k < ws.len() && 0 <= i < ws[k].len() implies level_of(
        ws,
        #[trigger] ws[k][i],
    ) == k by {
        let v = ws[k][i] as int;
        assert(level_of(ws, v as usize) == lvl[v]);
    }
    assert forall|v: int, j: int| 0 <= v < deps.len() && #[trigger] known_dep(deps, v, j) implies level_of(
        ws,
        deps[v][j],
    ) < level_of(ws, v as usize) by {
        let d = deps[v][j] as int;
        assert(level_of(ws, d as usize) == lvl[d]);
        assert(level_of(ws, v as usize) == lvl[v]);
    }
    assert forall|v: int| 0 <= v < deps.len() && #[trigger] level_of(ws, v as usize) > 0 implies exists|j: int|
        #[trigger] known_dep(deps, v, j) && level_of(ws, deps[v][j]) == level_of(ws, v as usize) - 1 by {
        assert(level_of(ws, v as usize) == lvl[v]);
        let j = choose|j: int| #[trigger] known_dep(deps, v, j) && lvl[deps[v][j] as int] == lvl[v] - 1;
        let d = deps[v][j] as int;
        assert(level_of(ws, d as usize) == lvl[d]);
    }
}

/// Groups the nodes into waves in dependency order.
///
/// Returns the wave decomposition when the graph has no cycle among known
/// nodes, and a graph validation error when it has one.
pub fn topological_waves(node_deps: &Vec<Vec<usize>>) -> (r: Result<Vec<Vec<usize>>, Error>)
    ensures
        match r {
            Ok(waves) => is_wave_decomposition(deps_view(node_deps@), waves_view(waves@)),
            Err(e) => {
                &&& has_dependency_cycle(deps_view(node_deps@))
                &&& e.kind == ErrorKind::GraphValidationFailed
                &&& e.message@ == cycle_error_text()
            },
        },
{
    let ghost deps = deps_view(node_deps@);
    let n = node_deps.len();
    let mut done: Vec<bool> = Vec::new();
    let mut k: usize = 0;
    while k < n
        invariant
            0 <= k <= n,
            done@.len() == k,
            forall|i: int| 0 <= i < k ==> !done@[i],
        decreases n - k,
    {
        done.push(false);
        k = k + 1;
    }
    proof {
        lemma_count_all_false(done@);
    }
    let mut count: usize = 0;
    let mut waves: Vec<Vec<usize>> = Vec::new();
    let ghost mut lvl: Seq<int> = Seq::new(n as nat, |i: int| -1);
    loop
        invariant
            n == node_deps@.len(),
            deps == deps_view(node_deps@),
            done@.len() == n,
            lvl.len() == n,
            count == count_true(done@),
            count <= n,
            forall|v: int| 0 <= v < n && #[trigger] done@[v] ==> 0 <= lvl[v] < waves@.len(),
            forall|v: int| 0 <= v < n && !#[trigger] done@[v] ==> lvl[v] == -1,
            forall|k: int|
                #![trigger waves@[k]]
                0 <= k < waves@.len() ==> {
                    &&& waves@[k]@.len() > 0
                    &&& strictly_increasing(waves@[k]@)
                    &&& forall|i: int|
                        0 <= i < waves@[k]@.len() ==> waves@[k]@[i] < n && lvl[waves@[k]@[i] as int]
                            == k
                },
            forall|v: int| 0 <= v < n && #[trigger] done@[v] ==> waves@[lvl[v]]@.contains(v as usize),
            forall|v: int, j: int|
                0 <= v < n && done@[v] && #[trigger] known_dep(deps, v, j) ==> done@[deps[v][j] as int]
                    && lvl[deps[v][j] as int] < lvl[v],
            forall|v: int|
                0 <= v < n && #[trigger] done@[v] && lvl[v] > 0 ==> exists|j: int|
                    #[trigger] known_dep(deps, v, j) && lvl[deps[v][j] as int] == lvl[v] - 1,
            forall|v: int|
                0 <= v < n && !#[trigger] done@[v] && waves@.len() > 0 ==> exists|j: int|
                    #[trigger] known_dep(deps, v, j) && (!done@[deps[v][j] as int] || lvl[deps[v][j] as int]
                        == waves@.len() - 1),
        ensures
            forall|v: int| 0 <= v < n ==> !ready(deps, done@, v),
        decreases n - count,
    {
        let (wave, mask) = ready_nodes(node_deps, &done);
        if wave.len() == 0 {
            proof {
                assert forall|v: int| 0 <= v < n implies !ready(deps, done@, v) by {
                    assert(!wave@.contains(v as usize));
                }
            }
            break;
        }
        let ghost old_done = done@;
        let ghost old_lvl = lvl;
        let ghost cur = waves@.len() as int;
        let ghost old_count = count;
        let ghost w0 = wave@[0] as int;
        proof {
            assert(0 <= w0 < n);
            assert(wave@.contains(w0 as usize));
            assert(ready(deps, done@, w0));
            assert(mask@[w0]);
        }
        let mut v: usize = 0;
        while v < n
            invariant
                n == node_deps@.len(),
                done@.len() == n,
                lvl.len() == n,
                old_done.len() == n,
                old_lvl.len() == n,
                mask@.len() == n,
                0 <= v <= n,
                forall|u: int| 0 <= u < n && #[trigger] mask@[u] ==> !old_done[u],
                count == count_true(done@),
                count <= n,
                0 <= w0 < n,
                mask@[w0],
                count >= old_count,
                v > w0 ==> count > old_count,
                forall|u: int|
                    0 <= u < n ==> #[trigger] done@[u] == if u < v { old_done[u] || mask@[u] } else { old_done[u] },
                forall|u: int|
                    0 <= u < n ==> #[trigger] lvl[u] == if u < v && mask@[u] { cur } else { old_lvl[u] },
            decreases n - v,
        {
            if mask[v] {
                proof {
                    lemma_count_true_set(done@, v as int);
                    lemma_count_true_bound(done@.update(v as int, true));
                    lvl = lvl.update(v as int, cur);
                }
                done.set(v, true);
                count = count + 1;
            }
            v = v + 1;
        }
        let ghost new_done = done@;
        let ghost new_lvl = lvl;
        let ghost old_waves = waves@;
        waves.push(wave);
        proof {
            let ws = waves@;
            assert forall|u: int| 0 <= u < n && #[trigger] done@[u] implies 0 <= lvl[u] < waves@.len() by {
                if !old_done[u] { assert(mask@[u]); }
            }
            assert forall|u: int| 0 <= u < n && !#[trigger] done@[u] implies lvl[u] == -1 by {}
            assert forall|k: int|
                #![trigger waves@[k]]
                0 <= k < waves@.len() implies {
                    &&& waves@[k]@.len() > 0
                    &&& strictly_increasing(waves@[k]@)
                    &&& forall|i: int|
                        0 <= i < waves@[k]@.len() ==> waves@[k]@[i] < n && lvl[waves@[k]@[i] as int]
                            == k
                } by {
                if k < cur {
                    assert(waves@[k] == old_waves[k]);
                    assert forall|i: int| 0 <= i < waves@[k]@.len() implies waves@[k]@[i] < n && lvl[waves@[k]@[i] as int] == k by {
                        let x = waves@[k]@[i] as int;
                        assert(old_lvl[x] == k);
                        assert(old_done[x]);
                        assert(!mask@[x]);
                    }
                } else {
                    assert(waves@[k] == wave);
                    assert forall|i: int| 0 <= i < waves@[k]@.len() implies waves@[k]@[i] < n && lvl[waves@[k]@[i] as int] == k by {
                        let x = wave@[i] as int;
                        assert(wave@.contains(x as usize));
                        assert(mask@[x]);
                    }
                }
            }
            assert forall|u: int| 0 <= u < n && #[trigger] done@[u] implies waves@[lvl[u]]@.contains(u as usize) by {
                if old_done[u] {
                    assert(!mask@[u]);
                    assert(waves@[lvl[u]] == old_waves[old_lvl[u]]);
                } else {
                    assert(mask@[u]);
                    assert(wave@.contains(u as usize));
                }
            }
            assert forall|u: int, j: int|
                0 <= u < n && done@[u] && #[trigger] known_dep(deps, u, j) implies done@[deps[u][j] as int]
                    && lvl[deps[u][j] as int] < lvl[u] by {
                let d = deps[u][j] as int;
                if old_done[u] {
                    assert(!mask@[u]);
                    assert(old_done[d]);
                    assert(!mask@[d]);
                } else {
                    assert(mask@[u]);
                    assert(ready(deps, old_done, u));
                    assert(old_done[d]);
                    assert(!mask@[d]);
                }
            }
            assert forall|u: int|
                0 <= u < n && #[trigger] done@[u] && lvl[u] > 0 implies exists|j: int|
                    #[trigger] known_dep(deps, u, j) && lvl[deps[u][j] as int] == lvl[u] - 1 by {
                if old_done[u] {
                    assert(!mask@[u]);
                    let j = choose|j: int| #[trigger] known_dep(deps, u, j) && old_lvl[deps[u][j] as int] == old_lvl[u] - 1;
                    let d = deps[u][j] as int;
                    assert(old_done[d]);
                    assert(!mask@[d]);
                } else {
                    assert(mask@[u]);
                    assert(ready(deps, old_done, u));
                    assert(cur > 0);
                    let j = choose|j: int| #[trigger] known_dep(deps, u, j) && (!old_done[deps[u][j] as int] || old_lvl[deps[u][j] as int]
                        == cur - 1);
                    let d = deps[u][j] as int;
                    assert(old_done[d]);
                    assert(!mask@[d]);
                }
            }
            assert forall|u: int|
                0 <= u < n && !#[trigger] done@[u] && waves@.len() > 0 implies exists|j: int|
                    #[trigger] known_dep(deps, u, j) && (!done@[deps[u][j] as int] || lvl[deps[u][j] as int]
                        == waves@.len() - 1) by {
                assert(!mask@[u]);
                assert(!old_done[u]);
                assert(!ready(deps, old_done, u));
                let j = choose|j: int| #[trigger] known_dep(deps, u, j) && !old_done[deps[u][j] as int];
                let d = deps[u][j] as int;
                if mask@[d] {
                    assert(lvl[d] == cur);
                } else {
                    assert(!done@[d]);
                }
            }
        }
    }
    if count < n {
        proof {
            lemma_count_true_bound(done@);
            let stuck = Set::new(|v: int| 0 <= v < n && !done@[v]);
            let w = choose|i: int| 0 <= i < done@.len() && !done@[i];
            assert(stuck.contains(w));
            assert forall|v: int| #[trigger] stuck.contains(v) implies 0 <= v < deps.len() && exists|j: int|
                known_dep(deps, v, j) && stuck.contains(deps[v][j] as int) by {
                assert(!ready(deps, done@, v));
                let j = choose|j: int| #[trigger] known_dep(deps, v, j) && !done@[deps[v][j] as int];
                assert(stuck.contains(deps[v][j] as int));
            }
            assert(closed_node_set(deps, stuck));
        }
        return Err(Error::graph_validation_failed(
            "circular dependency detected during eager resolution",
        ));
    }
    proof {
        lemma_count_true_full(done@);
        let ws = waves_view(waves@);
        assert(ws.len() == waves@.len());
        assert forall|v: int| 0 <= v < deps.len() implies 0 <= #[trigger] lvl[v] < ws.len() by {
            assert(done@[v]);
        }
        assert forall|v: int| 0 <= v < deps.len() implies ws[#[trigger] lvl[v]].contains(v as usize) by {
            assert(done@[v]);
            assert(ws[lvl[v]] == waves@[lvl[v]]@);
        }
        assert forall|v: int| 0 <= v < deps.len() && #[trigger] lvl[v] > 0 implies exists|j: int|
            #[trigger] known_dep(deps, v, j) && lvl[deps[v][j] as int] == lvl[v] - 1 by {
            assert(done@[v]);
        }
        assert forall|v: int, j: int| 0 <= v < deps.len() && #[trigger] known_dep(deps, v, j) implies lvl[deps[v][j] as int] < lvl[v] by {
            assert(done@[v]);
        }
        assert forall|k: int| 0 <= k < ws.len() implies #[trigger] ws[k] == waves@[k]@ by {}
        lemma_levels_give_decomposition(deps, lvl, ws);
    }
    Ok(waves)
}

/// A graph with a wave decomposition has no dependency cycle: in a closed
/// node set every node would lie in a later wave than some other member,
/// which no finite list of waves allows.
pub proof fn lemma_decomposition_is_acyclic(deps: Seq<Seq<usize>>, ws: Seq<Seq<usize>>)
    requires
        is_leveling(deps, ws),
    ensures
        !has_dependency_cycle(deps),
{
    if has_dependency_cycle(deps) {
        let stuck = choose|stuck: Set<int>| #[trigger] closed_node_set(deps, stuck);
        let v = choose|v: int| stuck.contains(v);
        lemma_closed_levels_unbounded(deps, ws, stuck, ws.len());
        assert(0 <= v < deps.len());
        assert(placed(ws, v as usize));
        assert(level_of(ws, v as usize) >= ws.len());
    }
}

proof fn lemma_closed_levels_unbounded(deps: Seq<Seq<usize>>, ws: Seq<Seq<usize>>, stuck: Set<int>, m: nat)
    requires
        is_leveling(deps, ws),
        closed_node_set(deps, stuck),
    ensures
        forall|v: int| #[trigger] stuck.contains(v) ==> level_of(ws, v as usize) >= m,
    decreases m,
{
    if m > 0 {
        lemma_closed_levels_unbounded(deps, ws, stuck, (m - 1) as nat);
        assert forall|v: int| #[trigger] stuck.contains(v) implies level_of(ws, v as usize) >= m by {
            let j = choose|j: int| known_dep(deps, v, j) && stuck.contains(deps[v][j] as int);
            let d = deps[v][j] as int;
            assert(level_of(ws, d as usize) >= m - 1);
            assert(known_dep(deps, v, j));
        }
    } else {
        assert forall|v: int| #[trigger] stuck.contains(v) implies level_of(ws, v as usize) >= m by {
            assert(0 <= v < deps.len());
            assert(placed(ws, v as usize));
        }
    }
}

} // verus!
