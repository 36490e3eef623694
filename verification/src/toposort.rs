//! Ordering the effects of a tick: a topological sort of named nodes along
//! ordering edges, with ties broken at random (Kahn's algorithm, the set
//! of ready nodes shuffled before each pick), so that orderings nobody
//! asked for differ from run to run.
use vstd::prelude::*;
use rand::rngs::StdRng;
use crate::ast::{strings_contain, strs_view};
use crate::kahn::{edges_within, idx_edges, idx_seq, kahn, respects, stalled};

verus! {

// ───────────────────────────── the graph over names ─────────────────────────────

pub open spec fn name_pairs(v: Seq<(String, String)>) -> Seq<(Seq<char>, Seq<char>)> {
    Seq::new(v.len(), |i: int| (v[i].0@, v[i].1@))
}

/// Both ends of the edge are nodes.
#[verifier::opaque]
pub open spec fn edge_in(nodes: Seq<Seq<char>>, e: (Seq<char>, Seq<char>)) -> bool {
    nodes.contains(e.0) && nodes.contains(e.1)
}

/// `em` lists distinct nodes, each after the sources of all the edges
/// (between nodes) into it.
pub open spec fn topo_prefix(nodes: Seq<Seq<char>>, edges: Seq<(Seq<char>, Seq<char>)>, em: Seq<Seq<char>>) -> bool {
    &&& forall|a: int, b: int| 0 <= a < b < em.len() ==> em[a] != em[b]
    &&& forall|i: int| 0 <= i < em.len() ==> nodes.contains(#[trigger] em[i])
    &&& forall|i: int, k: int|
        0 <= i < em.len() && 0 <= k < edges.len() && edge_in(nodes, #[trigger] edges[k]) && edges[k].1 == #[trigger] em[i]
            ==> exists|j: int| 0 <= j < i && em[j] == edges[k].0
}

/// Every node that `em` leaves out has an edge into it from a node that
/// `em` leaves out too: nothing more could have been emitted.
pub open spec fn topo_stalled(nodes: Seq<Seq<char>>, edges: Seq<(Seq<char>, Seq<char>)>, em: Seq<Seq<char>>) -> bool {
    forall|v: Seq<char>|
        nodes.contains(v) && !em.contains(v) ==> exists|k: int|
            0 <= k < edges.len() && edge_in(nodes, #[trigger] edges[k]) && edges[k].1 == v && !em.contains(edges[k].0)
}

/// The nodes, in input order and with repeats, that `em` leaves out.
pub open spec fn not_emitted(nodes: Seq<Seq<char>>, em: Seq<Seq<char>>) -> Seq<Seq<char>>
    decreases nodes.len(),
{
    if nodes.len() == 0 {
        Seq::empty()
    } else {
        not_emitted(nodes.drop_last(), em) + if em.contains(nodes.last()) {
            Seq::empty()
        } else {
            seq![nodes.last()]
        }
    }
}

/// What follows the emitted nodes when the sort stalls on a cycle: the
/// nodes left out, in input order; nothing when there are at least as
/// many emitted nodes as input nodes.
pub open spec fn fallback(nodes: Seq<Seq<char>>, em: Seq<Seq<char>>) -> Seq<Seq<char>> {
    if em.len() < nodes.len() {
        not_emitted(nodes, em)
    } else {
        Seq::empty()
    }
}

/// The nodes of `nodes`, each once, in order of first appearance.
fn distinct_names(nodes: &Vec<String>) -> (r: Vec<String>)
    ensures
        forall|a: int, b: int| 0 <= a < b < r.len() ==> r@[a]@ != r@[b]@,
        forall|x: Seq<char>| #[trigger] strs_view(r@).contains(x) <==> strs_view(nodes@).contains(x),
{
    let ghost nv = strs_view(nodes@);
    let mut u: Vec<String> = Vec::new();
    let mut i: usize = 0;
    while i < nodes.len()
        invariant
            0 <= i <= nodes.len(),
            nv == strs_view(nodes@),
            forall|a: int, b: int| 0 <= a < b < u.len() ==> u@[a]@ != u@[b]@,
            forall|x: Seq<char>| #[trigger] strs_view(u@).contains(x) <==> nv.take(i as int).contains(x),
        decreases nodes.len() - i,
    {
        let ghost before = strs_view(u@);
        proof {
            assert(nv.take(i + 1) =~= nv.take(i as int).push(nv[i as int]));
        }
        if !strings_contain(&u, &nodes[i]) {
            u.push(nodes[i].clone());
            proof {
                assert(strs_view(u@) =~= before.push(nv[i as int]));
                assert forall|a: int, b: int| 0 <= a < b < u.len() implies u@[a]@ != u@[b]@ by {
                    if b == u.len() - 1 {
                        assert(before[a] == u@[a]@);
                    }
                }
            }
        }
        proof {
            assert forall|x: Seq<char>| #[trigger] strs_view(u@).contains(x) <==> nv.take(i + 1).contains(x) by {
                lemma_push_has(before, nv[i as int], x);
                lemma_push_has(nv.take(i as int), nv[i as int], x);
            }
        }
        i += 1;
    }
    assert(nv.take(nodes.len() as int) =~= nv);
    u
}

proof fn lemma_push_has<T>(s: Seq<T>, x: T, y: T)
    ensures
        s.push(x).contains(y) <==> s.contains(y) || x == y,
{
    if s.push(x).contains(y) && x != y {
        let a = choose|a: int| 0 <= a < s.push(x).len() && s.push(x)[a] == y;
        assert(s[a] == y);
    }
    if s.contains(y) {
        let a = choose|a: int| 0 <= a < s.len() && s[a] == y;
        assert(s.push(x)[a] == y);
    }
    if x == y {
        assert(s.push(x)[s.len() as int] == y);
    }
}

/// The position of `x` in the distinct names `u`.
fn position(u: &Vec<String>, x: &String) -> (r: Option<usize>)
    ensures
        match r {
            Some(i) => i < u.len() && u@[i as int]@ == x@,
            None => !strs_view(u@).contains(x@),
        },
{
    let mut i: usize = 0;
    while i < u.len()
        invariant
            0 <= i <= u.len(),
            forall|k: int| 0 <= k < i ==> u@[k]@ != x@,
        decreases u.len() - i,
    {
        if u[i] == *x {
            return Some(i);
        }
        i += 1;
    }
    proof {
        if strs_view(u@).contains(x@) {
            let k = choose|k: int| 0 <= k < strs_view(u@).len() && strs_view(u@)[k] == x@;
            assert(u@[k]@ == x@);
        }
    }
    None
}

/// The index edges `es` over the distinct names `uv` are the named edges
/// between nodes: edge `j` of `es` is named edge `src[j]`, and a named edge
/// `k` between nodes is edge `dst[k]` of `es`.
pub open spec fn corresponds(
    nv: Seq<Seq<char>>,
    evn: Seq<(Seq<char>, Seq<char>)>,
    uv: Seq<Seq<char>>,
    es: Seq<(usize, usize)>,
    src: Seq<int>,
    dst: Seq<int>,
) -> bool {
    &&& src.len() == es.len()
    &&& dst.len() == evn.len()
    &&& forall|j: int|
        0 <= j < es.len() ==> 0 <= #[trigger] src[j] < evn.len() && edge_in(nv, evn[src[j]]) && evn[src[j]] == (
            uv[es[j].0 as int],
            uv[es[j].1 as int],
        )
    &&& forall|k: int|
        0 <= k < evn.len() && edge_in(nv, #[trigger] evn[k]) ==> 0 <= dst[k] < es.len() && evn[k] == (
            uv[es[dst[k]].0 as int],
            uv[es[dst[k]].1 as int],
        )
}

/// The edges between nodes, by their positions in the distinct names `u`.
fn index_edges(nodes: &Vec<String>, edges: &Vec<(String, String)>, u: &Vec<String>) -> (r: (
    Vec<(usize, usize)>,
    Ghost<Seq<int>>,
    Ghost<Seq<int>>,
))
    requires
        forall|x: Seq<char>| #[trigger] strs_view(u@).contains(x) <==> strs_view(nodes@).contains(x),
    ensures
        edges_within(idx_edges(r.0@), u.len() as int),
        corresponds(strs_view(nodes@), name_pairs(edges@), strs_view(u@), r.0@, r.1@, r.2@),
{
    let ghost nv = strs_view(nodes@);
    let ghost evn = name_pairs(edges@);
    let ghost uv = strs_view(u@);
    let mut es: Vec<(usize, usize)> = Vec::new();
    let ghost mut src: Seq<int> = Seq::empty();
    let ghost mut dst: Seq<int> = Seq::empty();
    let mut k: usize = 0;
    while k < edges.len()
        invariant
            0 <= k <= edges.len(),
            nv == strs_view(nodes@),
            evn == name_pairs(edges@),
            uv == strs_view(u@),
            forall|x: Seq<char>| #[trigger] uv.contains(x) <==> nv.contains(x),
            edges_within(idx_edges(es@), u.len() as int),
            src.len() == es.len(),
            dst.len() == k,
            forall|j: int|
                0 <= j < es.len() ==> 0 <= #[trigger] src[j] < k && edge_in(nv, evn[src[j]]) && evn[src[j]] == (
                    uv[es@[j].0 as int],
                    uv[es@[j].1 as int],
                ),
            forall|k2: int|
                0 <= k2 < k && edge_in(nv, #[trigger] evn[k2]) ==> 0 <= dst[k2] < es.len() && evn[k2] == (
                    uv[es@[dst[k2]].0 as int],
                    uv[es@[dst[k2]].1 as int],
                ),
        decreases edges.len() - k,
    {
        assert(evn[k as int] == (edges@[k as int].0@, edges@[k as int].1@));
        let pa = position(u, &edges[k].0);
        let pb = position(u, &edges[k].1);
        let ghost before = es@;
        match (pa, pb) {
            (Some(a), Some(b)) => {
                es.push((a, b));
                proof {
                    assert(uv[a as int] == u@[a as int]@ && uv[b as int] == u@[b as int]@);
                    assert(uv.contains(uv[a as int]) && uv.contains(uv[b as int]));
                    reveal(edge_in);
                    assert(edge_in(nv, evn[k as int]));
                    src = src.push(k as int);
                    dst = dst.push(before.len() as int);
                    assert forall|j: int| 0 <= j < es.len() implies 0 <= #[trigger] src[j] < k + 1 && edge_in(nv, evn[src[j]])
                        && evn[src[j]] == (uv[es@[j].0 as int], uv[es@[j].1 as int]) by {
                        if j < before.len() {
                            assert(es@[j] == before[j]);
                        }
                    }
                    assert forall|k2: int| 0 <= k2 < k + 1 && edge_in(nv, #[trigger] evn[k2]) implies 0 <= dst[k2] < es.len()
                        && evn[k2] == (uv[es@[dst[k2]].0 as int], uv[es@[dst[k2]].1 as int]) by {
                        if k2 < k {
                            assert(es@[dst[k2]] == before[dst[k2]]);
                        }
                    }
                    assert(edges_within(idx_edges(es@), u.len() as int)) by {
                        assert forall|j: int| 0 <= j < idx_edges(es@).len() implies 0 <= #[trigger] idx_edges(es@)[j].0 < u.len()
                            && 0 <= idx_edges(es@)[j].1 < u.len() by {
                            if j < before.len() {
                                assert(idx_edges(es@)[j] == idx_edges(before)[j]);
                            }
                        }
                    }
                }
            },
            _ => {
                proof {
                    reveal(edge_in);
                    if edge_in(nv, evn[k as int]) {
                        assert(uv.contains(evn[k as int].0) && uv.contains(evn[k as int].1));
                    }
                    dst = dst.push(-1);
                    assert forall|k2: int| 0 <= k2 < k + 1 && edge_in(nv, #[trigger] evn[k2]) implies 0 <= dst[k2] < es.len()
                        && evn[k2] == (uv[es@[dst[k2]].0 as int], uv[es@[dst[k2]].1 as int]) by {
                        if k2 < k {
                            assert(dst[k2] == dst.drop_last()[k2]);
                        }
                    }
                }
            },
        }
        k += 1;
    }
    (es, Ghost(src), Ghost(dst))
}

/// The names at the positions `out`.
fn names_at(u: &Vec<String>, out: &Vec<usize>) -> (em: Vec<String>)
    requires
        forall|i: int| 0 <= i < out.len() ==> #[trigger] out@[i] < u.len(),
    ensures
        em.len() == out.len(),
        forall|j: int| 0 <= j < out.len() ==> #[trigger] em@[j]@ == strs_view(u@)[out@[j] as int],
{
    let mut em: Vec<String> = Vec::new();
    let mut i: usize = 0;
    while i < out.len()
        invariant
            0 <= i <= out.len(),
            forall|i: int| 0 <= i < out.len() ==> #[trigger] out@[i] < u.len(),
            em.len() == i,
            forall|j: int| 0 <= j < i ==> #[trigger] em@[j]@ == strs_view(u@)[out@[j] as int],
        decreases out.len() - i,
    {
        em.push(u[out[i]].clone());
        i += 1;
    }
    em
}

proof fn lemma_same_name(uv: Seq<Seq<char>>, a: int, b: int)
    requires
        forall|x: int, y: int| 0 <= x < y < uv.len() ==> uv[x] != uv[y],
        0 <= a < uv.len(),
        0 <= b < uv.len(),
        uv[a] == uv[b],
    ensures
        a == b,
{
    if a < b {
        assert(uv[a] != uv[b]);
    } else if b < a {
        assert(uv[b] != uv[a]);
    }
}

/// The order Kahn's result respects carries over to the names.
proof fn lemma_names_prefix(
    nv: Seq<Seq<char>>,
    evn: Seq<(Seq<char>, Seq<char>)>,
    uv: Seq<Seq<char>>,
    es: Seq<(usize, usize)>,
    src: Seq<int>,
    dst: Seq<int>,
    ov: Seq<int>,
    emv: Seq<Seq<char>>,
)
    requires
        forall|a: int, b: int| 0 <= a < b < uv.len() ==> uv[a] != uv[b],
        forall|x: Seq<char>| #[trigger] uv.contains(x) <==> nv.contains(x),
        corresponds(nv, evn, uv, es, src, dst),
        edges_within(idx_edges(es), uv.len() as int),
        respects(idx_edges(es), ov, uv.len() as int),
        emv.len() == ov.len(),
        forall|j: int| 0 <= j < ov.len() ==> #[trigger] emv[j] == uv[ov[j]],
    ensures
        topo_prefix(nv, evn, emv),
{
    let iev = idx_edges(es);
    assert forall|a: int, b: int| 0 <= a < b < emv.len() implies emv[a] != emv[b] by {
        assert(emv[a] == uv[ov[a]] && emv[b] == uv[ov[b]]);
        assert(ov[a] != ov[b]);
    }
    assert forall|i2: int| 0 <= i2 < emv.len() implies nv.contains(#[trigger] emv[i2]) by {
        assert(emv[i2] == uv[ov[i2]]);
        assert(uv.contains(uv[ov[i2]]));
    }
    assert forall|i2: int, k2: int|
        0 <= i2 < emv.len() && 0 <= k2 < evn.len() && edge_in(nv, #[trigger] evn[k2]) && evn[k2].1 == #[trigger] emv[i2]
        implies exists|j: int| 0 <= j < i2 && emv[j] == evn[k2].0 by {
        let j = dst[k2];
        assert(iev[j] == (es[j].0 as int, es[j].1 as int));
        assert(emv[i2] == uv[ov[i2]]);
        lemma_same_name(uv, ov[i2], iev[j].1);
        assert(ov[i2] == iev[j].1);
        let j2 = choose|j2: int| 0 <= j2 < i2 && ov[j2] == iev[j].0;
        assert(emv[j2] == uv[ov[j2]]);
    }
}

/// The stall of Kahn's result carries over to the names.
proof fn lemma_names_stalled(
    nv: Seq<Seq<char>>,
    evn: Seq<(Seq<char>, Seq<char>)>,
    uv: Seq<Seq<char>>,
    es: Seq<(usize, usize)>,
    src: Seq<int>,
    dst: Seq<int>,
    ov: Seq<int>,
    emv: Seq<Seq<char>>,
)
    requires
        forall|a: int, b: int| 0 <= a < b < uv.len() ==> uv[a] != uv[b],
        forall|x: Seq<char>| #[trigger] uv.contains(x) <==> nv.contains(x),
        corresponds(nv, evn, uv, es, src, dst),
        edges_within(idx_edges(es), uv.len() as int),
        respects(idx_edges(es), ov, uv.len() as int),
        stalled(idx_edges(es), ov, uv.len() as int),
        emv.len() == ov.len(),
        forall|j: int| 0 <= j < ov.len() ==> #[trigger] emv[j] == uv[ov[j]],
    ensures
        topo_stalled(nv, evn, emv),
{
    let iev = idx_edges(es);
    assert forall|v: Seq<char>| nv.contains(v) && !emv.contains(v) implies exists|k2: int|
        0 <= k2 < evn.len() && edge_in(nv, #[trigger] evn[k2]) && evn[k2].1 == v && !emv.contains(evn[k2].0) by {
        assert(uv.contains(v));
        let p = choose|p: int| 0 <= p < uv.len() && uv[p] == v;
        if ov.contains(p) {
            let i2 = choose|i2: int| 0 <= i2 < ov.len() && ov[i2] == p;
            assert(emv[i2] == v);
        }
        let j = choose|j: int| 0 <= j < iev.len() && (#[trigger] iev[j]).1 == p && !ov.contains(iev[j].0);
        assert(iev[j] == (es[j].0 as int, es[j].1 as int));
        let k2 = src[j];
        assert(edge_in(nv, evn[k2]));
        if emv.contains(evn[k2].0) {
            let i2 = choose|i2: int| 0 <= i2 < emv.len() && emv[i2] == evn[k2].0;
            assert(emv[i2] == uv[ov[i2]]);
            lemma_same_name(uv, ov[i2], iev[j].0);
            assert(ov[i2] == iev[j].0);
        }
    }
}

/// Append, in input order, the nodes that `emitted` leaves out.
fn append_not_emitted(r: &mut Vec<String>, nodes: &Vec<String>, emitted: &Vec<String>)
    ensures
        strs_view(final(r)@) == strs_view(old(r)@) + not_emitted(strs_view(nodes@), strs_view(emitted@)),
{
    let ghost nv = strs_view(nodes@);
    let ghost emv = strs_view(emitted@);
    let ghost start = strs_view(r@);
    let mut q: usize = 0;
    assert(nv.take(0) =~= Seq::<Seq<char>>::empty());
    assert(start + not_emitted(nv.take(0), emv) =~= start);
    while q < nodes.len()
        invariant
            0 <= q <= nodes.len(),
            nv == strs_view(nodes@),
            emv == strs_view(emitted@),
            strs_view(r@) == start + not_emitted(nv.take(q as int), emv),
        decreases nodes.len() - q,
    {
        assert(nv.take(q + 1).drop_last() =~= nv.take(q as int));
        assert(nv.take(q + 1).last() == nv[q as int]);
        let ghost before = strs_view(r@);
        if !strings_contain(emitted, &nodes[q]) {
            r.push(nodes[q].clone());
            assert(strs_view(r@) =~= before.push(nv[q as int]));
        }
        assert(strs_view(r@) =~= start + not_emitted(nv.take(q + 1), emv));
        q += 1;
    }
    assert(nv.take(nodes.len() as int) =~= nv);
}

/// Order `nodes` along `edges`, breaking ties at random: each node is
/// emitted once, after the sources of every edge into it (edges with an
/// end that is not a node are ignored), while any node is free to go. If a
/// cycle stalls the sort and fewer nodes were emitted than the input
/// holds, the nodes left out follow in input order.
pub fn topo_sort_with_random_tiebreak(nodes: &Vec<String>, edges: &Vec<(String, String)>, rng: &mut StdRng) -> (r: Vec<String>)
    ensures
        exists|em: Seq<Seq<char>>|
            #![trigger fallback(strs_view(nodes@), em)]
            topo_prefix(strs_view(nodes@), name_pairs(edges@), em) && topo_stalled(strs_view(nodes@), name_pairs(edges@), em)
                && strs_view(r@) == em + fallback(strs_view(nodes@), em),
{
    let ghost nv = strs_view(nodes@);
    let u = distinct_names(nodes);
    let (es, Ghost(src), Ghost(dst)) = index_edges(nodes, edges, &u);
    let out = kahn(u.len(), &es, rng);
    proof {
        assert forall|i: int| 0 <= i < out.len() implies #[trigger] out@[i] < u.len() by {
            assert(idx_seq(out@)[i] == out@[i] as int);
        }
    }
    let em = names_at(&u, &out);
    let ghost emv = strs_view(em@);
    proof {
        assert forall|j: int| 0 <= j < idx_seq(out@).len() implies #[trigger] emv[j] == strs_view(u@)[idx_seq(out@)[j]] by {
            assert(emv[j] == em@[j]@);
        }
        assert forall|a: int, b: int| 0 <= a < b < strs_view(u@).len() implies strs_view(u@)[a] != strs_view(u@)[b] by {
            assert(strs_view(u@)[a] == u@[a]@ && strs_view(u@)[b] == u@[b]@);
        }
        lemma_names_prefix(nv, name_pairs(edges@), strs_view(u@), es@, src, dst, idx_seq(out@), emv);
        lemma_names_stalled(nv, name_pairs(edges@), strs_view(u@), es@, src, dst, idx_seq(out@), emv);
    }
    let mut r = copy_names(&em);
    if r.len() < nodes.len() {
        append_not_emitted(&mut r, nodes, &em);
    }
    assert(strs_view(r@) =~= emv + fallback(nv, emv));
    r
}

/// A copy of the names.
fn copy_names(v: &Vec<String>) -> (r: Vec<String>)
    ensures
        strs_view(r@) == strs_view(v@),
{
    let mut out: Vec<String> = Vec::new();
    let mut i: usize = 0;
    while i < v.len()
        invariant
            0 <= i <= v.len(),
            out.len() == i,
            forall|j: int| 0 <= j < i ==> #[trigger] out@[j]@ == v@[j]@,
        decreases v.len() - i,
    {
        out.push(v[i].clone());
        i += 1;
    }
    assert(strs_view(out@) =~= strs_view(v@));
    out
}


// ───────────────────────────── laws ─────────────────────────────

/// `rank` grows along every edge between nodes: the ordering is acyclic.
pub open spec fn ranked(nodes: Seq<Seq<char>>, edges: Seq<(Seq<char>, Seq<char>)>, rank: spec_fn(Seq<char>) -> nat) -> bool {
    forall|k: int| 0 <= k < edges.len() && edge_in(nodes, #[trigger] edges[k]) ==> rank(edges[k].0) < rank(edges[k].1)
}

proof fn lemma_ranked_emitted(
    nodes: Seq<Seq<char>>,
    edges: Seq<(Seq<char>, Seq<char>)>,
    em: Seq<Seq<char>>,
    rank: spec_fn(Seq<char>) -> nat,
    r: nat,
)
    requires
        topo_stalled(nodes, edges, em),
        ranked(nodes, edges, rank),
    ensures
        forall|v: Seq<char>| nodes.contains(v) && rank(v) <= r ==> em.contains(v),
    decreases r,
{
    if r > 0 {
        lemma_ranked_emitted(nodes, edges, em, rank, (r - 1) as nat);
    }
    assert forall|v: Seq<char>| nodes.contains(v) && rank(v) <= r implies em.contains(v) by {
        if !em.contains(v) {
            let k = choose|k: int| 0 <= k < edges.len() && edge_in(nodes, #[trigger] edges[k]) && edges[k].1 == v && !em.contains(edges[k].0);
            assert(rank(edges[k].0) < rank(v));
            reveal(edge_in);
            assert(nodes.contains(edges[k].0));
        }
    }
}

proof fn lemma_nothing_left(nodes: Seq<Seq<char>>, em: Seq<Seq<char>>)
    requires
        forall|v: Seq<char>| nodes.contains(v) ==> em.contains(v),
    ensures
        not_emitted(nodes, em) == Seq::<Seq<char>>::empty(),
    decreases nodes.len(),
{
    if nodes.len() > 0 {
        assert forall|v: Seq<char>| nodes.drop_last().contains(v) implies em.contains(v) by {
            let i = choose|i: int| 0 <= i < nodes.drop_last().len() && nodes.drop_last()[i] == v;
            assert(nodes[i] == v);
        }
        lemma_nothing_left(nodes.drop_last(), em);
        assert(nodes.contains(nodes[nodes.len() - 1]));
        assert(not_emitted(nodes, em) =~= Seq::<Seq<char>>::empty());
    }
}

/// When the ordering edges between the nodes are acyclic (some rank grows
/// along each of them), the sort stalls on nothing: every node is emitted,
/// each after the sources of its incoming edges, and nothing is appended.
pub proof fn law_acyclic_order_is_complete(
    nodes: Seq<Seq<char>>,
    edges: Seq<(Seq<char>, Seq<char>)>,
    em: Seq<Seq<char>>,
    rank: spec_fn(Seq<char>) -> nat,
)
    requires
        topo_prefix(nodes, edges, em),
        topo_stalled(nodes, edges, em),
        ranked(nodes, edges, rank),
    ensures
        forall|v: Seq<char>| nodes.contains(v) <==> em.contains(v),
        em + fallback(nodes, em) == em,
{
    assert forall|v: Seq<char>| nodes.contains(v) implies em.contains(v) by {
        lemma_ranked_emitted(nodes, edges, em, rank, rank(v));
    }
    assert forall|v: Seq<char>| em.contains(v) implies nodes.contains(v) by {
        let i = choose|i: int| 0 <= i < em.len() && em[i] == v;
    }
    lemma_nothing_left(nodes, em);
    assert(em + fallback(nodes, em) =~= em);
}


proof fn lemma_not_emitted(nodes: Seq<Seq<char>>, em: Seq<Seq<char>>)
    ensures
        forall|v: Seq<char>| #[trigger] not_emitted(nodes, em).contains(v) <==> (nodes.contains(v) && !em.contains(v)),
        nodes.no_duplicates() ==> not_emitted(nodes, em).no_duplicates(),
    decreases nodes.len(),
{
    if nodes.len() > 0 {
        let d = nodes.drop_last();
        lemma_not_emitted(d, em);
        let prev = not_emitted(d, em);
        let x = nodes.last();
        let tail = if em.contains(x) { Seq::<Seq<char>>::empty() } else { seq![x] };
        let ne = not_emitted(nodes, em);
        assert(ne == prev + tail);
        assert forall|v: Seq<char>| nodes.contains(v) <==> (d.contains(v) || v == x) by {
            if nodes.contains(v) {
                let i = choose|i: int| 0 <= i < nodes.len() && nodes[i] == v;
                if i < nodes.len() - 1 {
                    assert(d[i] == v);
                }
            }
            if d.contains(v) {
                let i = choose|i: int| 0 <= i < d.len() && d[i] == v;
                assert(nodes[i] == v);
            }
            if v == x {
                assert(nodes[nodes.len() - 1] == v);
            }
        }
        assert forall|v: Seq<char>| ne.contains(v) <==> (prev.contains(v) || tail.contains(v)) by {
            if ne.contains(v) {
                let i = choose|i: int| 0 <= i < ne.len() && ne[i] == v;
                if i < prev.len() {
                    assert(prev[i] == v);
                } else {
                    assert(tail[i - prev.len()] == v);
                }
            }
            if prev.contains(v) {
                let i = choose|i: int| 0 <= i < prev.len() && prev[i] == v;
                assert(ne[i] == v);
            }
            if tail.contains(v) {
                let i = choose|i: int| 0 <= i < tail.len() && tail[i] == v;
                assert(ne[prev.len() + i] == v);
            }
        }
        assert forall|v: Seq<char>| #[trigger] ne.contains(v) <==> (nodes.contains(v) && !em.contains(v)) by {
            assert(prev.contains(v) <==> (d.contains(v) && !em.contains(v)));
            if tail.contains(v) {
                let i = choose|i: int| 0 <= i < tail.len() && tail[i] == v;
                assert(tail[i] == x);
            }
            if v == x && !em.contains(x) {
                assert(tail[0] == x);
            }
        }
        if nodes.no_duplicates() {
            assert(d.no_duplicates()) by {
                assert forall|i: int, j: int| 0 <= i < d.len() && 0 <= j < d.len() && i != j implies d[i] != d[j] by {
                    assert(nodes[i] == d[i] && nodes[j] == d[j]);
                }
            }
            assert(!d.contains(x)) by {
                if d.contains(x) {
                    let i = choose|i: int| 0 <= i < d.len() && d[i] == x;
                    assert(nodes[i] == x && nodes[nodes.len() - 1] == x);
                }
            }
            assert forall|i: int, j: int| 0 <= i < ne.len() && 0 <= j < ne.len() && i != j implies ne[i] != ne[j] by {
                if i < prev.len() && j < prev.len() {
                    assert(ne[i] == prev[i] && ne[j] == prev[j]);
                } else if i >= prev.len() && j >= prev.len() {
                } else if i < prev.len() {
                    assert(prev.contains(ne[i]));
                    assert(ne[j] == x);
                } else {
                    assert(prev.contains(ne[j]));
                    assert(ne[i] == x);
                }
            }
        }
    } else {
        assert(not_emitted(nodes, em) =~= Seq::<Seq<char>>::empty());
    }
}

/// Law: on nodes without repeats, the sort's result (`em` followed by the
/// fallback; see `topo_sort_with_random_tiebreak`) is a permutation of the
/// nodes: each node exactly once, nothing else.
pub proof fn law_sort_is_permutation(nodes: Seq<Seq<char>>, edges: Seq<(Seq<char>, Seq<char>)>, em: Seq<Seq<char>>)
    requires
        nodes.no_duplicates(),
        topo_prefix(nodes, edges, em),
    ensures
        (em + fallback(nodes, em)).no_duplicates(),
        (em + fallback(nodes, em)).len() == nodes.len(),
        forall|v: Seq<char>| #[trigger] (em + fallback(nodes, em)).contains(v) <==> nodes.contains(v),
{
    broadcast use vstd::seq_lib::seq_to_set_is_finite;
    lemma_not_emitted(nodes, em);
    let ne = not_emitted(nodes, em);
    assert(em.no_duplicates()) by {
        assert forall|i: int, j: int| 0 <= i < em.len() && 0 <= j < em.len() && i != j implies em[i] != em[j] by {
            if i < j {
            } else {
            }
        }
    }
    em.unique_seq_to_set();
    nodes.unique_seq_to_set();
    assert(em.to_set().subset_of(nodes.to_set())) by {
        assert forall|v: Seq<char>| em.to_set().contains(v) implies nodes.to_set().contains(v) by {
            let i = choose|i: int| 0 <= i < em.len() && em[i] == v;
            assert(nodes.contains(em[i]));
        }
    }
    vstd::set_lib::lemma_len_subset(em.to_set(), nodes.to_set());
    if em.len() >= nodes.len() {
        assert forall|v: Seq<char>| nodes.contains(v) implies em.contains(v) by {
            if !em.contains(v) {
                assert(em.to_set().subset_of(nodes.to_set().remove(v)));
                vstd::set_lib::lemma_len_subset(em.to_set(), nodes.to_set().remove(v));
                assert(nodes.to_set().contains(v));
            }
        }
        assert(em + fallback(nodes, em) =~= em);
        assert forall|v: Seq<char>| #[trigger] em.contains(v) implies nodes.contains(v) by {
            let i = choose|i: int| 0 <= i < em.len() && em[i] == v;
        }
    } else {
        let out = em + ne;
        assert(em + fallback(nodes, em) == out);
        assert forall|v: Seq<char>| out.contains(v) <==> (em.contains(v) || ne.contains(v)) by {
            if out.contains(v) {
                let i = choose|i: int| 0 <= i < out.len() && out[i] == v;
                if i < em.len() {
                    assert(em[i] == v);
                } else {
                    assert(ne[i - em.len()] == v);
                }
            }
            if em.contains(v) {
                let i = choose|i: int| 0 <= i < em.len() && em[i] == v;
                assert(out[i] == v);
            }
            if ne.contains(v) {
                let i = choose|i: int| 0 <= i < ne.len() && ne[i] == v;
                assert(out[em.len() + i] == v);
            }
        }
        assert forall|v: Seq<char>| #[trigger] out.contains(v) <==> nodes.contains(v) by {
            if em.contains(v) {
                let i = choose|i: int| 0 <= i < em.len() && em[i] == v;
            }
        }
        assert forall|i: int, j: int| 0 <= i < out.len() && 0 <= j < out.len() && i != j implies out[i] != out[j] by {
            if i < em.len() && j < em.len() {
            } else if i >= em.len() && j >= em.len() {
                assert(out[i] == ne[i - em.len()] && out[j] == ne[j - em.len()]);
            } else if i < em.len() {
                assert(em.contains(out[i]));
                assert(ne.contains(out[j]));
            } else {
                assert(em.contains(out[j]));
                assert(ne.contains(out[i]));
            }
        }
        out.unique_seq_to_set();
        assert(out.to_set() =~= nodes.to_set());
    }
}

} // verus!
