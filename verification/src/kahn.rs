//! Kahn's topological sort over the nodes `0..m`, with the set of ready
//! nodes shuffled by a seeded generator before each pick.
use vstd::prelude::*;
use rand::rngs::StdRng;
use rand::seq::SliceRandom;
use rand::SeedableRng;

verus! {

broadcast use vstd::seq_lib::group_to_multiset_ensures;

#[verifier::external_type_specification]
#[verifier::external_body]
pub struct ExStdRng(StdRng);

/// `StdRng::seed_from_u64`: a generator seeded from `seed`. Nothing is
/// stated of the generator's state.
#[verifier::external_body]
pub(crate) fn seeded_rng(seed: u64) -> StdRng {
    StdRng::seed_from_u64(seed)
}

/// `SliceRandom::shuffle` on the vector's elements: the elements are
/// permuted in place (rand's Fisher–Yates swaps), so the multiset of
/// elements is unchanged; which permutation comes out rests on the
/// generator and is not stated.
#[verifier::external_body]
pub(crate) fn shuffle_vec<T>(v: &mut Vec<T>, rng: &mut StdRng)
    ensures
        final(v)@.to_multiset() == old(v)@.to_multiset(),
{
    v.as_mut_slice().shuffle(rng);
}

// ───────────────────────────── the graph over indices ─────────────────────────────

/// The number of edges of `es` into `v` whose source is not yet done.
pub open spec fn pending(es: Seq<(int, int)>, done: Seq<bool>, v: int) -> nat
    decreases es.len(),
{
    if es.len() == 0 {
        0
    } else {
        pending(es.drop_last(), done, v) + if es.last().1 == v && !done[es.last().0] {
            1nat
        } else {
            0nat
        }
    }
}

/// The targets of the edges of `es` out of `a`, in order.
pub open spec fn targets(es: Seq<(int, int)>, a: int) -> Seq<int>
    decreases es.len(),
{
    if es.len() == 0 {
        Seq::empty()
    } else {
        targets(es.drop_last(), a) + if es.last().0 == a {
            seq![es.last().1]
        } else {
            Seq::empty()
        }
    }
}

/// How often `v` occurs in `s`.
pub open spec fn count_of(s: Seq<int>, v: int) -> nat
    decreases s.len(),
{
    if s.len() == 0 {
        0
    } else {
        (if s[0] == v { 1nat } else { 0nat }) + count_of(s.drop_first(), v)
    }
}

/// The number of nodes done.
pub open spec fn count_true(done: Seq<bool>) -> nat
    decreases done.len(),
{
    if done.len() == 0 {
        0
    } else {
        count_true(done.drop_last()) + if done.last() { 1nat } else { 0nat }
    }
}

pub open spec fn edges_within(es: Seq<(int, int)>, m: int) -> bool {
    forall|k: int| 0 <= k < es.len() ==> 0 <= #[trigger] es[k].0 < m && 0 <= es[k].1 < m
}

proof fn lemma_count_true(done: Seq<bool>, n: int)
    requires
        0 <= n < done.len(),
        !done[n],
    ensures
        count_true(done.update(n, true)) == count_true(done) + 1,
        count_true(done) <= done.len(),
    decreases done.len(),
{
    let d2 = done.update(n, true);
    if n < done.len() - 1 {
        assert(d2.drop_last() =~= done.drop_last().update(n, true));
        lemma_count_true(done.drop_last(), n);
    } else {
        assert(d2.drop_last() =~= done.drop_last());
        lemma_count_true_le(done.drop_last());
    }
}

proof fn lemma_count_true_le(done: Seq<bool>)
    ensures
        count_true(done) <= done.len(),
    decreases done.len(),
{
    if done.len() > 0 {
        lemma_count_true_le(done.drop_last());
    }
}

proof fn lemma_count_of_concat(a: Seq<int>, b: Seq<int>, v: int)
    ensures
        count_of(a + b, v) == count_of(a, v) + count_of(b, v),
    decreases a.len(),
{
    if a.len() > 0 {
        assert((a + b).drop_first() =~= a.drop_first() + b);
        lemma_count_of_concat(a.drop_first(), b, v);
    } else {
        assert(a + b =~= b);
    }
}

/// Marking `n` done removes its edges from every node's pending count.
proof fn lemma_emit(es: Seq<(int, int)>, done: Seq<bool>, n: int, v: int)
    requires
        0 <= n < done.len(),
        !done[n],
        edges_within(es, done.len() as int),
    ensures
        pending(es, done.update(n, true), v) + count_of(targets(es, n), v) == pending(es, done, v),
    decreases es.len(),
{
    if es.len() > 0 {
        let d = es.drop_last();
        assert(edges_within(d, done.len() as int)) by {
            assert forall|k: int| 0 <= k < d.len() implies 0 <= #[trigger] d[k].0 < done.len() && 0 <= d[k].1 < done.len() by {
                assert(d[k] == es[k]);
            }
        }
        lemma_emit(d, done, n, v);
        let last = es.last();
        assert(0 <= last.0 < done.len()) by {
            assert(es[es.len() - 1] == last);
        }
        let extra: Seq<int> = if last.0 == n { seq![last.1] } else { Seq::empty() };
        lemma_count_of_concat(targets(d, n), extra, v);
        if last.0 == n {
            assert(count_of(extra, v) == (if last.1 == v { 1nat } else { 0nat })) by {
                assert(extra.drop_first() =~= Seq::<int>::empty());
                assert(count_of(extra.drop_first(), v) == 0);
                assert(extra[0] == last.1);
            }
        } else {
            assert(count_of(extra, v) == 0);
        }
    }
}

/// No edge into `v` is pending: every source of one is done.
proof fn lemma_pending_zero(es: Seq<(int, int)>, done: Seq<bool>, v: int)
    requires
        pending(es, done, v) == 0,
    ensures
        forall|k: int| 0 <= k < es.len() && (#[trigger] es[k]).1 == v ==> done[es[k].0],
    decreases es.len(),
{
    if es.len() > 0 {
        lemma_pending_zero(es.drop_last(), done, v);
        assert forall|k: int| 0 <= k < es.len() && (#[trigger] es[k]).1 == v implies done[es[k].0] by {
            if k < es.len() - 1 {
                assert(es.drop_last()[k] == es[k]);
            }
        }
    }
}

/// Some edge into `v` is pending.
proof fn lemma_pending_some(es: Seq<(int, int)>, done: Seq<bool>, v: int)
    requires
        pending(es, done, v) > 0,
    ensures
        exists|k: int| 0 <= k < es.len() && (#[trigger] es[k]).1 == v && !done[es[k].0],
    decreases es.len(),
{
    if es.len() > 0 {
        if pending(es.drop_last(), done, v) > 0 {
            lemma_pending_some(es.drop_last(), done, v);
            let k = choose|k: int| 0 <= k < es.drop_last().len() && (#[trigger] es.drop_last()[k]).1 == v && !done[es.drop_last()[k].0];
            assert(es[k] == es.drop_last()[k]);
        } else {
            assert(es[es.len() - 1].1 == v);
        }
    }
}

/// A target of `a` is the target of some edge out of `a`.
proof fn lemma_targets(es: Seq<(int, int)>, a: int, t: int)
    requires
        targets(es, a).contains(t),
    ensures
        exists|k: int| 0 <= k < es.len() && #[trigger] es[k] == (a, t),
    decreases es.len(),
{
    if es.len() > 0 {
        let d = es.drop_last();
        let extra: Seq<int> = if es.last().0 == a { seq![es.last().1] } else { Seq::empty() };
        assert(targets(es, a) == targets(d, a) + extra);
        let j = choose|j: int| 0 <= j < targets(es, a).len() && targets(es, a)[j] == t;
        if j < targets(d, a).len() {
            assert(targets(d, a)[j] == t);
            lemma_targets(d, a, t);
            let k = choose|k: int| 0 <= k < d.len() && #[trigger] d[k] == (a, t);
            assert(es[k] == d[k]);
        } else {
            assert(es[es.len() - 1] == (a, t));
        }
    }
}


pub open spec fn idx_edges(v: Seq<(usize, usize)>) -> Seq<(int, int)> {
    Seq::new(v.len(), |i: int| (v[i].0 as int, v[i].1 as int))
}

pub open spec fn idx_seq(v: Seq<usize>) -> Seq<int> {
    Seq::new(v.len(), |i: int| v[i] as int)
}

/// `out` lists distinct nodes below `m`, each after the sources of all the
/// edges into it.
pub open spec fn respects(es: Seq<(int, int)>, out: Seq<int>, m: int) -> bool {
    &&& forall|a: int, b: int| 0 <= a < b < out.len() ==> out[a] != out[b]
    &&& forall|i: int| 0 <= i < out.len() ==> 0 <= #[trigger] out[i] < m
    &&& forall|i: int, k: int|
        0 <= i < out.len() && 0 <= k < es.len() && (#[trigger] es[k]).1 == #[trigger] out[i] ==> exists|j: int|
            0 <= j < i && out[j] == es[k].0
}

/// Every node below `m` that `out` leaves out has an edge into it from a
/// node that `out` leaves out as well.
pub open spec fn stalled(es: Seq<(int, int)>, out: Seq<int>, m: int) -> bool {
    forall|v: int|
        0 <= v < m && !out.contains(v) ==> exists|k: int| 0 <= k < es.len() && (#[trigger] es[k]).1 == v && !out.contains(es[k].0)
}

/// Kahn's algorithm on the nodes `0..m`: repeatedly shuffle the nodes
/// whose incoming edges are all from emitted nodes, and emit the last.
pub fn kahn(m: usize, es: &Vec<(usize, usize)>, rng: &mut StdRng) -> (out: Vec<usize>)
    requires
        edges_within(idx_edges(es@), m as int),
    ensures
        respects(idx_edges(es@), idx_seq(out@), m as int),
        stalled(idx_edges(es@), idx_seq(out@), m as int),
{
    let ghost ev = idx_edges(es@);
    let mut indeg: Vec<usize> = Vec::new();
    let mut adj: Vec<Vec<usize>> = Vec::new();
    let mut i: usize = 0;
    let ghost done: Seq<bool> = Seq::new(m as nat, |k: int| false);
    while i < m
        invariant
            0 <= i <= m,
            indeg.len() == i,
            adj.len() == i,
            forall|v: int| 0 <= v < i ==> #[trigger] indeg@[v] == 0,
            forall|v: int| 0 <= v < i ==> (#[trigger] adj@[v])@.len() == 0,
        decreases m - i,
    {
        indeg.push(0);
        adj.push(Vec::new());
        i += 1;
    }
    let mut k: usize = 0;
    proof {
        assert(ev.take(0) =~= Seq::<(int, int)>::empty());
        assert forall|a: int| 0 <= a < m implies idx_seq(#[trigger] adj@[a]@) == targets(ev.take(0), a) by {
            assert(adj@[a]@.len() == 0);
            assert(idx_seq(adj@[a]@) =~= Seq::<int>::empty());
        }
    }
    while k < es.len()
        invariant
            0 <= k <= es.len(),
            ev == idx_edges(es@),
            edges_within(ev, m as int),
            indeg.len() == m,
            adj.len() == m,
            done == Seq::new(m as nat, |k: int| false),
            forall|v: int| 0 <= v < m ==> #[trigger] indeg@[v] == pending(ev.take(k as int), done, v) && indeg@[v] <= k,
            forall|a: int| 0 <= a < m ==> idx_seq(#[trigger] adj@[a]@) == targets(ev.take(k as int), a),
        decreases es.len() - k,
    {
        let (a, b) = es[k];
        assert(ev[k as int] == (a as int, b as int));
        assert(ev.take(k + 1).drop_last() =~= ev.take(k as int));
        assert(0 <= a < m && 0 <= b < m);
        let cur = indeg[b];
        indeg.set(b, cur + 1);
        let mut row = adj[a].clone();
        let ghost old_row = adj@[a as int]@;
        assert(row@ =~= old_row);
        row.push(b);
        adj.set(a, row);
        proof {
            assert forall|a2: int| 0 <= a2 < m implies idx_seq(#[trigger] adj@[a2]@) == targets(ev.take(k + 1), a2) by {
                if a2 == a {
                    assert(idx_seq(adj@[a2]@) =~= idx_seq(old_row) + seq![b as int]);
                }
            }
        }
        k += 1;
    }
    assert(ev.take(es.len() as int) =~= ev);
    let mut ready: Vec<usize> = Vec::new();
    let mut v: usize = 0;
    while v < m
        invariant
            0 <= v <= m,
            indeg.len() == m,
            done == Seq::new(m as nat, |k: int| false),
            forall|x: usize| #[trigger] ready@.to_multiset().count(x) == if x < v && !done[x as int] && indeg@[x as int] == 0 {
                1nat
            } else {
                0nat
            },
        decreases m - v,
    {
        if indeg[v] == 0 {
            ready.push(v);
        }
        v += 1;
    }
    shuffle_vec(&mut ready, rng);
    let mut out: Vec<usize> = Vec::new();
    proof {
        lemma_count_true_le(done);
        assert(count_true(done) == 0) by {
            lemma_count_true_zero(done);
        }
    }
    while ready.len() > 0
        invariant
            ev == idx_edges(es@),
            edges_within(ev, m as int),
            indeg.len() == m,
            adj.len() == m,
            done.len() == m,
            forall|v: int| 0 <= v < m ==> #[trigger] indeg@[v] == pending(ev, done, v),
            forall|a: int| 0 <= a < m ==> idx_seq(#[trigger] adj@[a]@) == targets(ev, a),
            forall|v: int| 0 <= v < m && done[v] ==> #[trigger] pending(ev, done, v) == 0,
            forall|x: usize| #[trigger] ready@.to_multiset().count(x) == if x < m && !done[x as int] && indeg@[x as int] == 0 {
                1nat
            } else {
                0nat
            },
            respects(ev, idx_seq(out@), m as int),
            forall|v: int| 0 <= v < m ==> (done[v] <==> idx_seq(out@).contains(v)),
            out.len() == count_true(done),
        decreases m - out.len(),
    {
        let ghost pre = ready@;
        shuffle_vec(&mut ready, rng);
        let ghost rv = ready@;
        assert(rv.len() == rv.to_multiset().len());
        assert(pre.len() == pre.to_multiset().len());
        let n = ready.pop().unwrap();
        proof {
            assert(rv[rv.len() - 1] == n);
            assert(rv.contains(n));
            assert(rv.to_multiset().count(n) > 0);
            assert(ready@ =~= rv.remove(rv.len() - 1));
        }
        assert(n < m && !done[n as int] && indeg@[n as int] == 0);
        let ghost done_old = done;
        let ghost out_old = idx_seq(out@);
        proof {
            lemma_count_true(done, n as int);
            lemma_pending_zero(ev, done, n as int);
            done = done.update(n as int, true);
        }
        out.push(n);
        proof {
            let o = idx_seq(out@);
            assert(o =~= out_old.push(n as int));
            assert(!out_old.contains(n as int));
            assert forall|a: int, b: int| 0 <= a < b < o.len() implies o[a] != o[b] by {
                if b == o.len() - 1 {
                    assert(o[a] == out_old[a]);
                }
            }
            assert forall|i2: int, k2: int|
                0 <= i2 < o.len() && 0 <= k2 < ev.len() && (#[trigger] ev[k2]).1 == #[trigger] o[i2] implies exists|j: int|
                0 <= j < i2 && o[j] == ev[k2].0 by {
                if i2 == o.len() - 1 {
                    assert(done_old[ev[k2].0]);
                    assert(out_old.contains(ev[k2].0));
                    let j = choose|j: int| 0 <= j < out_old.len() && out_old[j] == ev[k2].0;
                    assert(o[j] == ev[k2].0);
                } else {
                    assert(o[i2] == out_old[i2]);
                    let j = choose|j: int| 0 <= j < i2 && out_old[j] == ev[k2].0;
                    assert(o[j] == out_old[j]);
                }
            }
            assert forall|v: int| 0 <= v < m implies (done[v] <==> o.contains(v)) by {
                if o.contains(v) && v != n {
                    let j = choose|j: int| 0 <= j < o.len() && o[j] == v;
                    assert(out_old[j] == v);
                }
                if done[v] && v != n {
                    assert(out_old.contains(v));
                    let j = choose|j: int| 0 <= j < out_old.len() && out_old[j] == v;
                    assert(o[j] == v);
                }
                if v == n {
                    assert(o[o.len() - 1] == v);
                }
            }
        }
        let row = &adj[n];
        let ghost rowv = idx_seq(row@);
        proof {
            assert(rowv == targets(ev, n as int));
            assert forall|v: int| 0 <= v < m implies #[trigger] indeg@[v] == pending(ev, done, v) + count_of(rowv.skip(0), v) by {
                lemma_emit(ev, done_old, n as int, v);
                assert(rowv.skip(0) =~= rowv);
            }
            assert forall|j: int| 0 <= j < rowv.len() implies !done[#[trigger] rowv[j]] && 0 <= rowv[j] < m by {
                assert(targets(ev, n as int).contains(rowv[j]));
                lemma_targets(ev, n as int, rowv[j]);
                let k2 = choose|k2: int| 0 <= k2 < ev.len() && #[trigger] ev[k2] == (n as int, rowv[j]);
                if rowv[j] == n as int {
                    assert(done_old[n as int]);
                } else if done_old[rowv[j]] {
                    lemma_pending_zero(ev, done_old, rowv[j]);
                    assert(done_old[n as int]);
                }
            }
        }
        let mut j: usize = 0;
        while j < row.len()
            invariant
                0 <= j <= row.len(),
                row == &adj[n as int],
                rowv == idx_seq(row@),
                n < m,
                indeg.len() == m,
                adj.len() == m,
                done.len() == m,
                forall|j2: int| 0 <= j2 < rowv.len() ==> !done[#[trigger] rowv[j2]] && 0 <= rowv[j2] < m,
                forall|v: int| 0 <= v < m ==> #[trigger] indeg@[v] == pending(ev, done, v) + count_of(rowv.skip(j as int), v),
                forall|x: usize| #[trigger] ready@.to_multiset().count(x) == if x < m && !done[x as int] && indeg@[x as int] == 0 {
                    1nat
                } else {
                    0nat
                },
            decreases row.len() - j,
        {
            let t = row[j];
            assert(rowv[j as int] == t as int);
            assert(rowv.skip(j as int).drop_first() =~= rowv.skip(j + 1));
            assert(rowv.skip(j as int)[0] == t as int);
            let d = indeg[t];
            indeg.set(t, d - 1);
            if d - 1 == 0 {
                ready.push(t);
            }
            j += 1;
        }
        proof {
            assert(rowv.skip(row.len() as int) =~= Seq::<int>::empty());
            assert forall|v: int| 0 <= v < m && done[v] implies #[trigger] pending(ev, done, v) == 0 by {
                lemma_emit(ev, done_old, n as int, v);
            }
            lemma_count_true_le(done);
        }
    }
    proof {
        let o = idx_seq(out@);
        assert forall|v: int| 0 <= v < m && !o.contains(v) implies exists|k2: int|
            0 <= k2 < ev.len() && (#[trigger] ev[k2]).1 == v && !o.contains(ev[k2].0) by {
            assert(ready@.to_multiset().count(v as usize) == 0);
            assert(!done[v]);
            assert(indeg@[v] != 0);
            lemma_pending_some(ev, done, v);
            let k2 = choose|k2: int| 0 <= k2 < ev.len() && (#[trigger] ev[k2]).1 == v && !done[ev[k2].0];
            assert(0 <= ev[k2].0 < m);
        }
    }
    out
}

proof fn lemma_count_true_zero(done: Seq<bool>)
    requires
        forall|i: int| 0 <= i < done.len() ==> !done[i],
    ensures
        count_true(done) == 0,
    decreases done.len(),
{
    if done.len() > 0 {
        lemma_count_true_zero(done.drop_last());
    }
}


/// Permuting strings permutes their views.
pub proof fn lemma_strs_multiset(a: Seq<String>, b: Seq<String>)
    requires
        a.to_multiset() == b.to_multiset(),
    ensures
        crate::ast::strs_view(a).to_multiset() == crate::ast::strs_view(b).to_multiset(),
    decreases a.len(),
{
    let va = crate::ast::strs_view(a);
    let vb = crate::ast::strs_view(b);
    assert(a.len() == a.to_multiset().len() && b.len() == b.to_multiset().len());
    if a.len() == 0 {
        assert(va =~= Seq::<Seq<char>>::empty());
        assert(vb =~= Seq::<Seq<char>>::empty());
    } else {
        let x = a.last();
        assert(a.contains(x)) by {
            assert(a[a.len() - 1] == x);
        }
        assert(a.to_multiset().count(x) > 0);
        assert(b.contains(x));
        let i = choose|i: int| 0 <= i < b.len() && b[i] == x;
        let a2 = a.drop_last();
        let b2 = b.remove(i);
        assert(a2 =~= a.remove(a.len() - 1));
        assert(a2.to_multiset() =~= a.to_multiset().remove(x));
        assert(b2.to_multiset() =~= b.to_multiset().remove(x));
        lemma_strs_multiset(a2, b2);
        let va2 = crate::ast::strs_view(a2);
        let vb2 = crate::ast::strs_view(b2);
        assert(va =~= va2.push(x@));
        assert(vb2 =~= vb.remove(i));
        assert(vb[i] == x@);
        assert(vb.remove(i).to_multiset() =~= vb.to_multiset().remove(x@));
        assert(vb.contains(x@)) by {
            assert(vb[i] == x@);
        }
        assert(vb.to_multiset() =~= vb2.to_multiset().insert(x@));
        assert(va.to_multiset() =~= va2.to_multiset().insert(x@));
    }
}

} // verus!
