//! Eager resolution of a provider graph: the node names of providers, and
//! the error that reports a failed wave.
//!
//! Every provider is a node: `single::<type>` for a provider by type,
//! `named::<type>::<name>` for a named one and `dynamic::<name>` for a
//! dynamic one. The nodes are ordered into waves (see `graph`); the
//! providers of one wave are resolved concurrently, and the first wave with
//! a failure ends the resolution.
use vstd::prelude::*;
use vstd::string::*;
use crate::error::{Error, ErrorKind, messages, push_joined_messages};
use crate::graph::{
    cycle_error_text, deps_view, has_dependency_cycle, is_leveling, lemma_decomposition_is_acyclic,
    level_of, placed, topological_waves, waves_view,
};
use crate::text::{decimal, join, push_decimal};

verus! {

pub open spec fn single_node_text(service_name: Seq<char>) -> Seq<char> {
    "single::"@ + service_name
}

pub open spec fn named_node_text(service_name: Seq<char>, name: Seq<char>) -> Seq<char> {
    "named::"@ + service_name + "::"@ + name
}

pub open spec fn dynamic_node_text(name: Seq<char>) -> Seq<char> {
    "dynamic::"@ + name
}

pub open spec fn wave_failure_text(wave_index: nat, errors: Seq<Error>) -> Seq<char> {
    "Eager resolution wave "@ + decimal(wave_index) + " failed: "@ + join(messages(errors), "; "@)
}

/// The node of the provider registered for a type.
pub fn single_node_id(service_name: &str) -> (r: String)
    ensures
        r@ == single_node_text(service_name@),
{
    let mut r = String::new();
    r.append("single::");
    r.append(service_name);
    r
}

/// The node of the provider registered for a type under `name`.
pub fn named_node_id(service_name: &str, name: &str) -> (r: String)
    ensures
        r@ == named_node_text(service_name@, name@),
{
    let mut r = String::new();
    r.append("named::");
    r.append(service_name);
    r.append("::");
    r.append(name);
    r
}

/// The node of the dynamic provider registered under `name`.
pub fn dynamic_node_id(name: &str) -> (r: String)
    ensures
        r@ == dynamic_node_text(name@),
{
    let mut r = String::new();
    r.append("dynamic::");
    r.append(name);
    r
}

/// The error of an eager resolution whose wave `wave_index` (counted from
/// zero) had the failures `errors`, reported in the order given.
pub fn wave_failure(wave_index: usize, errors: &Vec<Error>) -> (e: Error)
    ensures
        e.kind == ErrorKind::EagerResolutionFailed,
        e.message@ == wave_failure_text(wave_index as nat, errors@),
{
    let mut m = String::new();
    m.append("Eager resolution wave ");
    push_decimal(&mut m, wave_index as u64);
    m.append(" failed: ");
    push_joined_messages(&mut m, errors, "; ");
    Error::new(ErrorKind::EagerResolutionFailed, m)
}


/// `a` comes before `b` when both agree up to position `i`: compared
/// character by character from `i` on, a proper prefix coming first.
pub open spec fn text_less_from(a: Seq<char>, b: Seq<char>, i: int) -> bool
    decreases a.len() - i,
{
    if i < 0 || i >= a.len() {
        0 <= i < b.len()
    } else if i >= b.len() {
        false
    } else if a[i] != b[i] {
        (a[i] as int) < (b[i] as int)
    } else {
        text_less_from(a, b, i + 1)
    }
}

/// Lexicographic order of texts by character, the order of `String`s.
pub open spec fn text_less(a: Seq<char>, b: Seq<char>) -> bool {
    text_less_from(a, b, 0)
}

proof fn lemma_text_less_irreflexive(a: Seq<char>, i: int)
    requires
        0 <= i,
    ensures
        !text_less_from(a, a, i),
    decreases a.len() - i,
{
    if i < a.len() {
        lemma_text_less_irreflexive(a, i + 1);
    }
}

proof fn lemma_text_less_transitive(a: Seq<char>, b: Seq<char>, c: Seq<char>, i: int)
    requires
        0 <= i,
        text_less_from(a, b, i),
        text_less_from(b, c, i),
    ensures
        text_less_from(a, c, i),
    decreases a.len() - i,
{
    if i < a.len() && i < b.len() && i < c.len() && a[i] == b[i] && b[i] == c[i] {
        lemma_text_less_transitive(a, b, c, i + 1);
    }
}

proof fn lemma_text_less_total(a: Seq<char>, b: Seq<char>, i: int)
    requires
        0 <= i <= a.len(),
        i <= b.len(),
        a.subrange(i, a.len() as int) != b.subrange(i, b.len() as int),
    ensures
        text_less_from(a, b, i) || text_less_from(b, a, i),
    decreases a.len() - i,
{
    if i < a.len() && i < b.len() && a[i] == b[i] {
        assert(a.subrange(i + 1, a.len() as int) != b.subrange(i + 1, b.len() as int)) by {
            if a.subrange(i + 1, a.len() as int) == b.subrange(i + 1, b.len() as int) {
                assert(a.subrange(i, a.len() as int) =~= seq![a[i]] + a.subrange(i + 1, a.len() as int));
                assert(b.subrange(i, b.len() as int) =~= seq![b[i]] + b.subrange(i + 1, b.len() as int));
            }
        }
        lemma_text_less_total(a, b, i + 1);
    } else if i == a.len() && i == b.len() {
        assert(a.subrange(i, a.len() as int) =~= b.subrange(i, b.len() as int));
    } else if i < a.len() && i < b.len() {
        assert((a[i] as int) != (b[i] as int));
    }
}

/// Two different texts are ordered one way or the other.
pub proof fn lemma_text_order_total(a: Seq<char>, b: Seq<char>)
    requires
        a != b,
    ensures
        text_less(a, b) || text_less(b, a),
{
    assert(a.subrange(0, a.len() as int) =~= a);
    assert(b.subrange(0, b.len() as int) =~= b);
    lemma_text_less_total(a, b, 0);
}

/// Compares two texts in the order of `String`s.
pub fn str_less(a: &str, b: &str) -> (r: bool)
    ensures
        r == text_less(a@, b@),
{
    let la = a.unicode_len();
    let lb = b.unicode_len();
    let mut i: usize = 0;
    while i < la && i < lb
        invariant
            la == a@.len(),
            lb == b@.len(),
            0 <= i <= la,
            i <= lb,
            text_less(a@, b@) == text_less_from(a@, b@, i as int),
        decreases la - i,
    {
        let ca = a.get_char(i);
        let cb = b.get_char(i);
        if ca != cb {
            return (ca as u32) < (cb as u32);
        }
        i = i + 1;
    }
    i < lb && i >= la
}


/// The texts of the node names.
pub open spec fn id_texts(ids: Seq<String>) -> Seq<Seq<char>> {
    ids.map_values(|s: String| s@)
}

/// The texts of the dependency lists.
pub open spec fn dep_texts(deps: Seq<Vec<String>>) -> Seq<Seq<Seq<char>>> {
    deps.map_values(|d: Vec<String>| d@.map_values(|s: String| s@))
}

/// No name occurs twice.
pub open spec fn distinct_texts(t: Seq<Seq<char>>) -> bool {
    forall|i: int, j: int| 0 <= i < j < t.len() ==> t[i] != t[j]
}

/// The node named `d`, or `ids.len()` (an unknown node) when there is none.
pub open spec fn index_in(ids: Seq<Seq<char>>, d: Seq<char>) -> usize {
    if exists|i: int| 0 <= i < ids.len() && ids[i] == d {
        (choose|i: int| 0 <= i < ids.len() && ids[i] == d) as usize
    } else {
        ids.len() as usize
    }
}

/// The dependency graph over node numbers: node `v` is named `ids[v]`, and
/// its dependencies are the nodes its dependency names name.
pub open spec fn id_graph(ids: Seq<Seq<char>>, deps: Seq<Seq<Seq<char>>>) -> Seq<Seq<usize>> {
    Seq::new(deps.len(), |v: int| deps[v].map_values(|d: Seq<char>| index_in(ids, d)))
}

/// The nodes of `w` are listed in the order of their names.
pub open spec fn sorted_by_name(ids: Seq<Seq<char>>, w: Seq<usize>) -> bool {
    forall|i: int, j: int| 0 <= i < j < w.len() ==> text_less(ids[w[i] as int], ids[w[j] as int])
}

/// The nodes of `w` in the order of their names.
fn sort_by_name(ids: &Vec<String>, w: &Vec<usize>) -> (r: Vec<usize>)
    requires
        distinct_texts(id_texts(ids@)),
        forall|i: int| 0 <= i < w@.len() ==> (w@[i] as int) < ids@.len(),
        forall|i: int, j: int| 0 <= i < j < w@.len() ==> w@[i] != w@[j],
    ensures
        r@.len() == w@.len(),
        forall|x: usize| r@.contains(x) <==> w@.contains(x),
        sorted_by_name(id_texts(ids@), r@),
{
    let ghost t = id_texts(ids@);
    let mut r: Vec<usize> = Vec::new();
    let mut i: usize = 0;
    while i < w.len()
        invariant
            0 <= i <= w@.len(),
            t == id_texts(ids@),
            distinct_texts(t),
            forall|a: int| 0 <= a < w@.len() ==> (w@[a] as int) < ids@.len(),
            forall|a: int, b: int| 0 <= a < b < w@.len() ==> w@[a] != w@[b],
            r@.len() == i,
            forall|x: usize| r@.contains(x) <==> w@.take(i as int).contains(x),
            sorted_by_name(t, r@),
        decreases w@.len() - i,
    {
        let x = w[i];
        assert(!r@.contains(x)) by {
            if r@.contains(x) {
                let a = choose|a: int| 0 <= a < i && w@.take(i as int)[a] == x;
                assert(w@[a] == w@[i as int]);
            }
        }
        assert forall|q: int| 0 <= q < r@.len() implies (r@[q] as int) < ids@.len() by {
            let y = r@[q];
            assert(r@.contains(y));
            assert(w@.take(i as int).contains(y));
            let wt = w@.take(i as int);
            let a = choose|a: int| 0 <= a < wt.len() && #[trigger] wt[a] == y;
            assert(w@[a] == y);
        }
        let mut p: usize = 0;
        while p < r.len() && !str_less(ids[x].as_str(), ids[r[p]].as_str())
            invariant
                0 <= p <= r@.len(),
                t == id_texts(ids@),
                distinct_texts(t),
                (x as int) < ids@.len(),
                !r@.contains(x),
                forall|q: int| 0 <= q < r@.len() ==> (r@[q] as int) < ids@.len(),
                forall|q: int| 0 <= q < p ==> text_less(t[r@[q] as int], t[x as int]),
            decreases r@.len() - p,
        {
            proof {
                let y = r@[p as int];
                assert(y != x);
                assert(t[y as int] != t[x as int]);
                lemma_text_order_total(t[y as int], t[x as int]);
            }
            p = p + 1;
        }
        let ghost old_r = r@;
        proof {
            old_r.insert_ensures(p as int, x);
        }
        r.insert(p, x);
        proof {
            let nr = r@;
            assert forall|a: int, b: int| 0 <= a < b < nr.len() implies text_less(t[nr[a] as int], t[nr[b] as int]) by {
                if b < p {
                } else if b == p {
                } else if a < p {
                    assert(nr[b] == old_r[b - 1]);
                } else if a == p {
                    assert(nr[b] == old_r[b - 1]);
                    assert(p < old_r.len());
                    assert(text_less(t[x as int], t[old_r[p as int] as int]));
                    if b - 1 > p {
                        assert(sorted_by_name(t, old_r));
                        assert(text_less(t[old_r[p as int] as int], t[old_r[b - 1] as int]));
                        lemma_text_less_transitive(t[x as int], t[old_r[p as int] as int], t[old_r[b - 1] as int], 0);
                    }
                } else {
                    assert(nr[a] == old_r[a - 1]);
                    assert(nr[b] == old_r[b - 1]);
                }
            }
            assert(w@.take(i + 1) =~= w@.take(i as int).push(x));
            assert forall|y: usize| nr.contains(y) <==> w@.take(i + 1).contains(y) by {
                if nr.contains(y) {
                    let a = choose|a: int| 0 <= a < nr.len() && nr[a] == y;
                    if a < p {
                        assert(old_r.contains(y));
                    } else if a > p {
                        assert(nr[a] == old_r[a - 1]);
                        assert(old_r.contains(y));
                    }
                    assert(w@.take(i as int).push(x).contains(y)) by {
                        if y != x {
                            let c = choose|c: int| 0 <= c < i && w@.take(i as int)[c] == y;
                            assert(w@.take(i as int).push(x)[c] == y);
                        } else {
                            assert(w@.take(i as int).push(x)[i as int] == y);
                        }
                    }
                }
                if w@.take(i + 1).contains(y) {
                    let wi = w@.take(i + 1);
                    let c = choose|c: int| 0 <= c < wi.len() && #[trigger] wi[c] == y;
                    if c == i {
                        assert(nr[p as int] == y);
                    } else {
                        assert(w@.take(i as int)[c] == y);
                        assert(old_r.contains(y));
                        let a = choose|a: int| 0 <= a < old_r.len() && old_r[a] == y;
                        if a < p {
                            assert(nr[a] == y);
                        } else {
                            assert(nr[a + 1] == y);
                        }
                    }
                }
            }
        }
        i = i + 1;
    }
    proof {
        assert(w@.take(w@.len() as int) =~= w@);
    }
    r
}

/// The node named `d`: its position in `ids`, or `ids.len()` when none is.
fn index_of_name(ids: &Vec<String>, d: &String) -> (r: usize)
    requires
        distinct_texts(id_texts(ids@)),
    ensures
        r == index_in(id_texts(ids@), d@),
{
    let ghost t = id_texts(ids@);
    let mut i: usize = 0;
    while i < ids.len()
        invariant
            0 <= i <= ids@.len(),
            t == id_texts(ids@),
            distinct_texts(t),
            forall|j: int| 0 <= j < i ==> t[j] != d@,
        decreases ids@.len() - i,
    {
        if ids[i].eq(d) {
            proof {
                assert(t[i as int] == d@);
                let c = choose|c: int| 0 <= c < t.len() && t[c] == d@;
                if c != i {
                    if c < i {
                        assert(t[c] != t[i as int]);
                    } else {
                        assert(t[i as int] != t[c]);
                    }
                }
            }
            return i;
        }
        i = i + 1;
    }
    proof {
        assert(!exists|j: int| 0 <= j < t.len() && t[j] == d@);
    }
    i
}

/// The dependency graph over node numbers.
fn index_graph(ids: &Vec<String>, deps: &Vec<Vec<String>>) -> (g: Vec<Vec<usize>>)
    requires
        distinct_texts(id_texts(ids@)),
    ensures
        deps_view(g@) == id_graph(id_texts(ids@), dep_texts(deps@)),
{
    let ghost t = id_texts(ids@);
    let ghost dt = dep_texts(deps@);
    let ghost full = id_graph(t, dt);
    let mut g: Vec<Vec<usize>> = Vec::new();
    let mut v: usize = 0;
    while v < deps.len()
        invariant
            0 <= v <= deps@.len(),
            t == id_texts(ids@),
            dt == dep_texts(deps@),
            full == id_graph(t, dt),
            distinct_texts(t),
            deps_view(g@) == full.take(v as int),
        decreases deps@.len() - v,
    {
        let mut row: Vec<usize> = Vec::new();
        let mut j: usize = 0;
        while j < deps[v].len()
            invariant
                0 <= v < deps@.len(),
                0 <= j <= deps@[v as int]@.len(),
                t == id_texts(ids@),
                dt == dep_texts(deps@),
                distinct_texts(t),
                row@ == dt[v as int].map_values(|d: Seq<char>| index_in(t, d)).take(j as int),
            decreases deps@[v as int]@.len() - j,
        {
            let k = index_of_name(ids, &deps[v][j]);
            row.push(k);
            proof {
                assert(dt[v as int][j as int] == deps@[v as int]@[j as int]@);
                assert(row@ =~= dt[v as int].map_values(|d: Seq<char>| index_in(t, d)).take(j + 1));
            }
            j = j + 1;
        }
        proof {
            assert(row@ =~= dt[v as int].map_values(|d: Seq<char>| index_in(t, d)));
            assert(full[v as int] == row@);
        }
        let ghost before = g@;
        g.push(row);
        proof {
            assert(deps_view(g@) =~= deps_view(before).push(row@));
            assert(full.take(v + 1) =~= full.take(v as int).push(full[v as int]));
        }
        v = v + 1;
    }
    proof {
        assert(full.take(deps@.len() as int) =~= full);
    }
    g
}

/// Reordering the nodes within each wave keeps an ordering into waves.
proof fn lemma_leveling_regrouped(deps: Seq<Seq<usize>>, ws: Seq<Seq<usize>>, ws2: Seq<Seq<usize>>)
    requires
        is_leveling(deps, ws),
        ws2.len() == ws.len(),
        forall|k: int| 0 <= k < ws.len() ==> #[trigger] ws2[k].len() == ws[k].len(),
        forall|k: int, x: usize| 0 <= k < ws.len() ==> (#[trigger] ws2[k].contains(x) <==> ws[k].contains(x)),
    ensures
        is_leveling(deps, ws2),
{
    assert forall|k: int, x: usize| 0 <= k < ws.len() && #[trigger] ws[k].contains(x) implies level_of(ws, x) == k by {
        let i = choose|i: int| 0 <= i < ws[k].len() && ws[k][i] == x;
        assert(level_of(ws, ws[k][i]) == k);
    }
    assert forall|x: usize| placed(ws, x) implies level_of(ws2, x) == level_of(ws, x) && placed(ws2, x) by {
        let k0 = choose|k: int| 0 <= k < ws.len() && #[trigger] ws[k].contains(x);
        assert(ws2[k0].contains(x));
        assert(placed(ws2, x));
        let k2 = level_of(ws2, x);
        assert(ws[k2].contains(x));
    }
    assert forall|k: int| 0 <= k < ws2.len() implies {
        &&& #[trigger] ws2[k].len() > 0
        &&& forall|i: int| 0 <= i < ws2[k].len() ==> ws2[k][i] < deps.len()
    } by {
        assert(ws[k].len() > 0);
        assert forall|i: int| 0 <= i < ws2[k].len() implies ws2[k][i] < deps.len() by {
            assert(ws2[k].contains(ws2[k][i]));
            let j = choose|j: int| 0 <= j < ws[k].len() && ws[k][j] == ws2[k][i];
        }
    }
    assert forall|v: int| 0 <= v < deps.len() implies #[trigger] placed(ws2, v as usize) by {
        assert(placed(ws, v as usize));
    }
    assert forall|k: int, i: int| 0 <= k < ws2.len() && 0 <= i < ws2[k].len() implies level_of(ws2, #[trigger] ws2[k][i]) == k by {
        let x = ws2[k][i];
        assert(ws2[k].contains(x));
        assert(ws[k].contains(x));
        assert(placed(ws, x));
    }
    assert forall|v: int, j: int|
        0 <= v < deps.len() && #[trigger] crate::graph::known_dep(deps, v, j) implies level_of(ws2, deps[v][j]) < level_of(ws2, v as usize) by {
        assert(placed(ws, v as usize));
        assert(placed(ws, deps[v][j] as usize)) by {
            assert(0 <= deps[v][j] < deps.len());
            assert(placed(ws, (deps[v][j] as int) as usize));
        }
    }
    assert forall|v: int|
        0 <= v < deps.len() && #[trigger] level_of(ws2, v as usize) > 0 implies exists|j: int|
            #[trigger] crate::graph::known_dep(deps, v, j) && level_of(ws2, deps[v][j]) == level_of(ws2, v as usize) - 1 by {
        assert(placed(ws, v as usize));
        assert(level_of(ws, v as usize) > 0);
        let j = choose|j: int| #[trigger] crate::graph::known_dep(deps, v, j) && level_of(ws, deps[v][j]) == level_of(ws, v as usize) - 1;
        assert(placed(ws, (deps[v][j] as int) as usize));
        assert(crate::graph::known_dep(deps, v, j));
    }
}

/// Every declared dependency is respected: in an ordering into waves of
/// the graph of named nodes, a node lies in a later wave than every node
/// named among its dependencies, whichever position the name has in its
/// list.
pub proof fn lemma_dependencies_come_first(ids: Seq<String>, deps: Seq<Vec<String>>, ws: Seq<Seq<usize>>)
    requires
        ids.len() == deps.len(),
        ids.len() <= usize::MAX,
        distinct_texts(id_texts(ids)),
        is_leveling(id_graph(id_texts(ids), dep_texts(deps)), ws),
    ensures
        forall|v: int, j: int, i: int|
            0 <= v < deps.len() && 0 <= j < deps[v]@.len() && 0 <= i < ids.len()
                && #[trigger] ids[i]@ == #[trigger] deps[v]@[j]@ ==> level_of(ws, i as usize) < level_of(ws, v as usize),
{
    let t = id_texts(ids);
    let dt = dep_texts(deps);
    let gv = id_graph(t, dt);
    assert forall|v: int, j: int, i: int|
        0 <= v < deps.len() && 0 <= j < deps[v]@.len() && 0 <= i < ids.len()
            && #[trigger] ids[i]@ == #[trigger] deps[v]@[j]@ implies level_of(ws, i as usize) < level_of(ws, v as usize) by {
        assert(t[i] == ids[i]@);
        assert(dt[v][j] == deps[v]@[j]@);
        let d = dt[v][j];
        assert(exists|c: int| 0 <= c < t.len() && t[c] == d);
        let c = choose|c: int| 0 <= c < t.len() && t[c] == d;
        if c != i {
            if c < i {
                assert(t[c] != t[i]);
            } else {
                assert(t[i] != t[c]);
            }
        }
        assert(index_in(t, d) == i as usize);
        assert(gv[v][j] == i as usize);
        assert(crate::graph::known_dep(gv, v, j));
    }
}

/// Orders the providers named `ids`, whose dependencies are named by
/// `deps`, into waves: each wave holds the nodes whose named dependencies
/// all lie in earlier waves (a name that is no node is ignored), listed in
/// the order of their names. A dependency cycle is an error.
pub fn eager_plan(ids: &Vec<String>, deps: &Vec<Vec<String>>) -> (r: Result<Vec<Vec<usize>>, Error>)
    requires
        ids@.len() == deps@.len(),
        distinct_texts(id_texts(ids@)),
    ensures
        ({
            let g = id_graph(id_texts(ids@), dep_texts(deps@));
            match r {
                Ok(ws) => {
                    &&& is_leveling(g, waves_view(ws@))
                    &&& forall|k: int| 0 <= k < ws@.len() ==> sorted_by_name(id_texts(ids@), #[trigger] ws@[k]@)
                    &&& !has_dependency_cycle(g)
                    &&& forall|v: int, j: int, i: int|
                        0 <= v < deps@.len() && 0 <= j < deps@[v]@.len() && 0 <= i < ids@.len()
                            && #[trigger] ids@[i]@ == #[trigger] deps@[v]@[j]@ ==> level_of(
                            waves_view(ws@),
                            i as usize,
                        ) < level_of(waves_view(ws@), v as usize)
                },
                Err(e) => {
                    &&& has_dependency_cycle(g)
                    &&& e.kind == ErrorKind::GraphValidationFailed
                    &&& e.message@ == cycle_error_text()
                },
            }
        }),
{
    let n_ids: usize = ids.len();
    let g = index_graph(ids, deps);
    let ghost gv = deps_view(g@);
    let waves = match topological_waves(&g) {
        Ok(w) => w,
        Err(e) => return Err(e),
    };
    let ghost wv = waves_view(waves@);
    let mut sorted: Vec<Vec<usize>> = Vec::new();
    let mut k: usize = 0;
    while k < waves.len()
        invariant
            0 <= k <= waves@.len(),
            gv == deps_view(g@),
            gv.len() == ids@.len(),
            wv == waves_view(waves@),
            crate::graph::is_wave_decomposition(gv, wv),
            distinct_texts(id_texts(ids@)),
            sorted@.len() == k,
            forall|a: int| 0 <= a < k ==> #[trigger] sorted@[a]@.len() == wv[a].len(),
            forall|a: int, x: usize| 0 <= a < k ==> (#[trigger] sorted@[a]@.contains(x) <==> wv[a].contains(x)),
            forall|a: int| 0 <= a < k ==> sorted_by_name(id_texts(ids@), #[trigger] sorted@[a]@),
        decreases waves@.len() - k,
    {
        proof {
            assert(wv[k as int] == waves@[k as int]@);
            assert(wv[k as int].len() > 0);
        }
        let w = sort_by_name(ids, &waves[k]);
        sorted.push(w);
        k = k + 1;
    }
    proof {
        let sv = waves_view(sorted@);
        assert forall|a: int| 0 <= a < sv.len() implies #[trigger] sv[a] == sorted@[a]@ by {}
        lemma_leveling_regrouped(gv, wv, sv);
        lemma_decomposition_is_acyclic(gv, sv);
        assert(ids@.len() == n_ids);
        lemma_dependencies_come_first(ids@, deps@, sv);
    }
    Ok(sorted)
}


/// What a provider declares it depends on.
pub enum DependencyHint {
    /// The provider of a type.
    One { service_name: String },
    /// The provider of a type under a name.
    Named { service_name: String, name: String },
    /// A dynamic provider, by name when the hint has one.
    Dynamic { provider_name: Option<String> },
    /// Every provider of a set.
    All { service_name: String },
}

pub open spec fn dependency_node_text(hint: DependencyHint) -> Option<Seq<char>> {
    match hint {
        DependencyHint::One { service_name } => Some(single_node_text(service_name@)),
        DependencyHint::Named { service_name, name } => Some(named_node_text(service_name@, name@)),
        DependencyHint::Dynamic { provider_name: Some(name) } => Some(dynamic_node_text(name@)),
        DependencyHint::Dynamic { provider_name: None } => None,
        DependencyHint::All { .. } => None,
    }
}

/// The node a dependency hint points at; set dependencies and unnamed
/// dynamic ones take no part in eager ordering.
pub fn dependency_node(hint: &DependencyHint) -> (r: Option<String>)
    ensures
        match dependency_node_text(*hint) {
            Some(t) => r matches Some(s) && s@ == t,
            None => r is None,
        },
{
    match hint {
        DependencyHint::One { service_name } => Some(single_node_id(service_name.as_str())),
        DependencyHint::Named { service_name, name } => Some(named_node_id(service_name.as_str(), name.as_str())),
        DependencyHint::Dynamic { provider_name: Some(name) } => Some(dynamic_node_id(name.as_str())),
        DependencyHint::Dynamic { provider_name: None } => None,
        DependencyHint::All { .. } => None,
    }
}

/// The entries among the first `n` that were registered at injector `x`,
/// in registration order.
pub open spec fn entries_at(nodes: Seq<usize>, x: usize, n: nat) -> Seq<usize>
    decreases n,
{
    if n == 0 {
        Seq::empty()
    } else if nodes[n - 1] == x {
        entries_at(nodes, x, (n - 1) as nat).push((n - 1) as usize)
    } else {
        entries_at(nodes, x, (n - 1) as nat)
    }
}

/// The entries registered at the first `c` injectors of `chain`: those of
/// the outer injectors first, each injector's in registration order.
pub open spec fn visible_entries(chain: Seq<usize>, nodes: Seq<usize>, c: nat) -> Seq<usize>
    decreases c,
{
    if c == 0 {
        Seq::empty()
    } else {
        visible_entries(chain, nodes, (c - 1) as nat) + entries_at(nodes, chain[c - 1], nodes.len())
    }
}

/// The distinct names of the first `m` entries of `order`, in order of
/// first appearance.
pub open spec fn merged_names(order: Seq<usize>, names: Seq<Seq<char>>, m: nat) -> Seq<Seq<char>>
    decreases m,
{
    if m == 0 {
        Seq::empty()
    } else {
        let rest = merged_names(order, names, (m - 1) as nat);
        if rest.contains(names[order[m - 1] as int]) {
            rest
        } else {
            rest.push(names[order[m - 1] as int])
        }
    }
}

/// The position among the first `m` entries of `order` of the last one
/// named `x`; -1 when there is none.
pub open spec fn last_named(order: Seq<usize>, names: Seq<Seq<char>>, x: Seq<char>, m: nat) -> int
    decreases m,
{
    if m == 0 {
        -1
    } else if names[order[m - 1] as int] == x {
        m - 1
    } else {
        last_named(order, names, x, (m - 1) as nat)
    }
}

/// The entries that take part in eager resolution from an injector:
/// `chain` lists the injectors from the root down to it, and entry `i` was
/// registered at `entry_nodes[i]` under the name `entry_names[i]`, in
/// registration order. For each name visible along the chain, in order of
/// first appearance (ancestors first), the result gives the entry that
/// counts: the last one registered under that name, so that a child's
/// registration replaces its parent's.
pub fn eager_winners(chain: &Vec<usize>, entry_nodes: &Vec<usize>, entry_names: &Vec<String>) -> (r: Vec<usize>)
    requires
        entry_nodes@.len() == entry_names@.len(),
    ensures
        ({
            let order = visible_entries(chain@, entry_nodes@, chain@.len());
            let names = id_texts(entry_names@);
            let merged = merged_names(order, names, order.len());
            &&& r@.len() == merged.len()
            &&& distinct_texts(merged)
            &&& forall|j: int| 0 <= j < r@.len() ==> {
                &&& (#[trigger] r@[j] as int) < entry_names@.len()
                &&& names[r@[j] as int] == merged[j]
                &&& r@[j] == order[last_named(order, names, merged[j], order.len())]
            }
        }),
{
    let ghost names = id_texts(entry_names@);
    let n = entry_nodes.len();
    let mut order: Vec<usize> = Vec::new();
    let mut c: usize = 0;
    while c < chain.len()
        invariant
            0 <= c <= chain@.len(),
            n == entry_nodes@.len(),
            order@ == visible_entries(chain@, entry_nodes@, c as nat),
            forall|k: int| 0 <= k < order@.len() ==> (#[trigger] order@[k] as int) < n,
        decreases chain@.len() - c,
    {
        let x = chain[c];
        let ghost base = order@;
        let mut i: usize = 0;
        while i < n
            invariant
                0 <= i <= n,
                n == entry_nodes@.len(),
                x == chain@[c as int],
                order@ == base + entries_at(entry_nodes@, x, i as nat),
                forall|k: int| 0 <= k < order@.len() ==> (#[trigger] order@[k] as int) < n,
            decreases n - i,
        {
            if entry_nodes[i] == x {
                order.push(i);
                proof {
                    assert(order@ =~= base + entries_at(entry_nodes@, x, (i + 1) as nat));
                }
            } else {
                proof {
                    assert(entries_at(entry_nodes@, x, (i + 1) as nat) == entries_at(entry_nodes@, x, i as nat));
                }
            }
            i = i + 1;
        }
        c = c + 1;
    }
    let ghost ord = order@;
    let mut winners: Vec<usize> = Vec::new();
    let mut k: usize = 0;
    while k < order.len()
        invariant
            0 <= k <= ord.len(),
            ord == order@,
            names == id_texts(entry_names@),
            forall|q: int| 0 <= q < ord.len() ==> (#[trigger] ord[q] as int) < entry_names@.len(),
            winners@.len() == merged_names(ord, names, k as nat).len(),
            distinct_texts(merged_names(ord, names, k as nat)),
            forall|j: int| 0 <= j < winners@.len() ==> {
                &&& (#[trigger] winners@[j] as int) < entry_names@.len()
                &&& names[winners@[j] as int] == merged_names(ord, names, k as nat)[j]
                &&& winners@[j] == ord[last_named(ord, names, merged_names(ord, names, k as nat)[j], k as nat)]
            },
        decreases ord.len() - k,
    {
        let e = order[k];
        let ghost x = names[e as int];
        let ghost merged = merged_names(ord, names, k as nat);
        let mut j: usize = 0;
        let mut found = false;
        while j < winners.len() && !found
            invariant
                0 <= j <= winners@.len(),
                winners@.len() == merged.len(),
                names == id_texts(entry_names@),
                (e as int) < entry_names@.len(),
                x == names[e as int],
                forall|q: int| 0 <= q < winners@.len() ==> (#[trigger] winners@[q] as int) < entry_names@.len()
                    && names[winners@[q] as int] == merged[q],
                found ==> j < winners@.len() && merged[j as int] == x,
                !found ==> forall|q: int| 0 <= q < j ==> merged[q] != x,
            decreases winners@.len() - j + (if found { 0int } else { 1int }),
        {
            if entry_names[winners[j]].eq(&entry_names[e]) {
                found = true;
            } else {
                j = j + 1;
            }
        }
        proof {
            assert(merged_names(ord, names, (k + 1) as nat) == if merged.contains(x) { merged } else { merged.push(x) });
            if found {
                assert(merged[j as int] == x);
                assert(merged.contains(x));
            } else {
                assert(!merged.contains(x)) by {
                    if merged.contains(x) {
                        let q = choose|q: int| 0 <= q < merged.len() && merged[q] == x;
                    }
                }
            }
            assert forall|y: Seq<char>| y != x implies #[trigger] last_named(ord, names, y, (k + 1) as nat) == last_named(ord, names, y, k as nat) by {}
            assert(last_named(ord, names, x, (k + 1) as nat) == k);
        }
        if found {
            winners.set(j, e);
        } else {
            winners.push(e);
        }
        proof {
            let merged2 = merged_names(ord, names, (k + 1) as nat);
            assert forall|q: int| 0 <= q < winners@.len() implies {
                &&& (#[trigger] winners@[q] as int) < entry_names@.len()
                &&& names[winners@[q] as int] == merged2[q]
                &&& winners@[q] == ord[last_named(ord, names, merged2[q], (k + 1) as nat)]
            } by {
                if merged2[q] != x {
                    assert(last_named(ord, names, merged2[q], (k + 1) as nat) == last_named(ord, names, merged2[q], k as nat));
                }
            }
            assert(distinct_texts(merged2)) by {
                if !found {
                    assert forall|a: int, b: int| 0 <= a < b < merged2.len() implies merged2[a] != merged2[b] by {
                        if b == merged.len() {
                            assert(merged.contains(merged[a]));
                        }
                    }
                }
            }
        }
        k = k + 1;
    }
    winners
}

/// What eager resolution does once a wave has run.
pub enum WaveStep {
    /// Run the wave with this index.
    RunWave { wave_index: usize },
    /// Every wave ran without a failure.
    Done,
    /// Stop: no later wave runs, and resolution fails with this error.
    Failed { error: Error },
}

/// The decision after wave `wave_index` of `wave_count` ran with the
/// failures `errors` (in the order of the wave's providers): a wave with a
/// failure ends the resolution with one error that reports all of them;
/// otherwise the next wave runs, or resolution is done after the last.
pub fn after_wave(wave_index: usize, wave_count: usize, errors: &Vec<Error>) -> (r: WaveStep)
    requires
        wave_index < wave_count,
    ensures
        errors@.len() > 0 ==> (r matches WaveStep::Failed { error } && error.kind
            == ErrorKind::EagerResolutionFailed && error.message@ == wave_failure_text(
            wave_index as nat,
            errors@,
        )),
        errors@.len() == 0 ==> r == if wave_index + 1 < wave_count {
            WaveStep::RunWave { wave_index: (wave_index + 1) as usize }
        } else {
            WaveStep::Done
        },
{
    if errors.len() > 0 {
        WaveStep::Failed { error: wave_failure(wave_index, errors) }
    } else if wave_index + 1 < wave_count {
        WaveStep::RunWave { wave_index: wave_index + 1 }
    } else {
        WaveStep::Done
    }
}

} // verus!
