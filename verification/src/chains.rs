//! Chain decomposition: the reversed rename mapping is drained pair by pair
//! into acyclic chains and cycles whose edges are exactly the mapping's
//! entries.

use vstd::prelude::*;
use vstd::multiset::Multiset;

use crate::bytes_order::{bytes_eq, ddv, dv};

verus! {

broadcast use vstd::seq_lib::group_to_multiset_ensures, vstd::multiset::group_multiset_axioms;

/// The views of the reversed (destination, source) pairs.
pub open spec fn pv(s: Seq<(Vec<u8>, Vec<u8>)>) -> Seq<(Seq<u8>, Seq<u8>)> {
    Seq::new(s.len(), |i: int| (s[i].0@, s[i].1@))
}

/// The (source, destination) edges claimed by a list of reversed pairs.
pub open spec fn pairs_edges(ps: Seq<(Seq<u8>, Seq<u8>)>) -> Seq<(Seq<u8>, Seq<u8>)> {
    Seq::new(ps.len(), |i: int| (ps[i].1, ps[i].0))
}

/// The rename edges along a chain `f0 -> f1 -> ... -> fn`.
pub open spec fn edge_seq(c: Seq<Seq<u8>>) -> Seq<(Seq<u8>, Seq<u8>)> {
    if c.len() == 0 {
        Seq::empty()
    } else {
        Seq::new((c.len() - 1) as nat, |i: int| (c[i], c[i + 1]))
    }
}

/// The rename edges along a working chain kept in reversed order (its
/// destination first): each adjacent pair read backward.
pub open spec fn redge_seq(c: Seq<Seq<u8>>) -> Seq<(Seq<u8>, Seq<u8>)> {
    if c.len() == 0 {
        Seq::empty()
    } else {
        Seq::new((c.len() - 1) as nat, |i: int| (c[i + 1], c[i]))
    }
}

/// The edges of a cyclic chain: along the chain, plus the closing edge from
/// its last name back to its first.
pub open spec fn cycle_edge_seq(c: Seq<Seq<u8>>) -> Seq<(Seq<u8>, Seq<u8>)> {
    if c.len() == 0 {
        Seq::empty()
    } else {
        edge_seq(c) + seq![(c.last(), c.first())]
    }
}

/// The multiset of edges over a list of acyclic chains.
pub open spec fn chains_edges(cs: Seq<Seq<Seq<u8>>>) -> Multiset<(Seq<u8>, Seq<u8>)>
    decreases cs.len(),
{
    if cs.len() == 0 {
        Multiset::empty()
    } else {
        chains_edges(cs.drop_last()).add(edge_seq(cs.last()).to_multiset())
    }
}

/// The multiset of edges over a list of cycles.
pub open spec fn cycles_edges(cs: Seq<Seq<Seq<u8>>>) -> Multiset<(Seq<u8>, Seq<u8>)>
    decreases cs.len(),
{
    if cs.len() == 0 {
        Multiset::empty()
    } else {
        cycles_edges(cs.drop_last()).add(cycle_edge_seq(cs.last()).to_multiset())
    }
}

/// Every edge still to be placed: those of the remaining reversed pairs, of
/// the tracked chains, and of the finished cycles.
pub open spec fn state_edges(
    rev: Seq<(Vec<u8>, Vec<u8>)>,
    chains: Seq<Vec<Vec<u8>>>,
    cycles: Seq<Vec<Vec<u8>>>,
) -> Multiset<(Seq<u8>, Seq<u8>)> {
    pairs_edges(pv(rev)).to_multiset().add(chains_edges(ddv(chains))).add(
        cycles_edges(ddv(cycles)),
    )
}

/// Removing one chain removes exactly its edges.
proof fn lemma_chains_edges_remove(cs: Seq<Seq<Seq<u8>>>, i: int)
    requires
        0 <= i < cs.len(),
    ensures
        chains_edges(cs) == chains_edges(cs.remove(i)).add(edge_seq(cs[i]).to_multiset()),
    decreases cs.len(),
{
    if i == cs.len() - 1 {
        assert(cs.remove(i) =~= cs.drop_last());
    } else {
        lemma_chains_edges_remove(cs.drop_last(), i);
        assert(cs.remove(i).drop_last() =~= cs.drop_last().remove(i));
        assert(cs.remove(i).last() == cs.last());
        assert(chains_edges(cs) =~= chains_edges(cs.remove(i)).add(edge_seq(cs[i]).to_multiset()));
    }
}

/// Appending one name to a reversed working chain adds one backward edge.
proof fn lemma_redge_push(c: Seq<Seq<u8>>, m: Seq<u8>)
    requires
        c.len() >= 1,
    ensures
        redge_seq(c.push(m)) == redge_seq(c).push((m, c.last())),
{
    assert(redge_seq(c.push(m)) =~= redge_seq(c).push((m, c.last())));
}

/// Appending one name to a chain adds one forward edge.
proof fn lemma_edge_push(c: Seq<Seq<u8>>, d: Seq<u8>)
    requires
        c.len() >= 1,
    ensures
        edge_seq(c.push(d)) == edge_seq(c).push((c.last(), d)),
{
    assert(edge_seq(c.push(d)) =~= edge_seq(c).push((c.last(), d)));
}

/// Reversing a chain turns its backward edges into its forward edges.
proof fn lemma_edge_reverse(c: Seq<Seq<u8>>)
    ensures
        edge_seq(c.reverse()) == redge_seq(c).reverse(),
{
    assert(edge_seq(c.reverse()) =~= redge_seq(c).reverse());
}

/// Gluing two chains that share their junction name concatenates their edge
/// lists.
proof fn lemma_edge_glue(a: Seq<Seq<u8>>, b: Seq<Seq<u8>>)
    requires
        a.len() >= 1,
        b.len() >= 1,
        a.last() == b.first(),
    ensures
        edge_seq(a + b.drop_first()) == edge_seq(a) + edge_seq(b),
{
    let g = a + b.drop_first();
    assert(g.len() == a.len() + b.len() - 1);
    assert forall|i: int| 0 <= i < edge_seq(g).len() implies edge_seq(g)[i] == (edge_seq(a)
        + edge_seq(b))[i] by {
        if i < a.len() - 1 {
            assert(g[i] == a[i]);
            assert(g[i + 1] == a[i + 1]);
        } else if i == a.len() - 1 {
            assert(g[i] == a[a.len() - 1]);
            assert(g[i + 1] == b.drop_first()[0]);
            assert((edge_seq(a) + edge_seq(b))[i] == edge_seq(b)[0]);
        } else {
            assert(g[i] == b.drop_first()[i - a.len()]);
            assert(g[i + 1] == b.drop_first()[i + 1 - a.len()]);
            assert((edge_seq(a) + edge_seq(b))[i] == edge_seq(b)[i - (a.len() - 1)]);
        }
    }
    assert(edge_seq(g) =~= edge_seq(a) + edge_seq(b));
}

/// Finds a remaining (destination, source) pair keyed by the destination.
fn find_pair(rev: &Vec<(Vec<u8>, Vec<u8>)>, key: &Vec<u8>) -> (r: Option<usize>)
    ensures
        match r {
            Some(i) => i < rev@.len() && rev@[i as int].0@ == key@,
            None => forall|j: int| 0 <= j < rev@.len() ==> (#[trigger] rev@[j]).0@ != key@,
        },
{
    let mut i: usize = 0;
    while i < rev.len()
        invariant
            i <= rev.len(),
            forall|j: int| 0 <= j < i ==> (#[trigger] rev@[j]).0@ != key@,
        decreases rev.len() - i,
    {
        if bytes_eq(&rev[i].0, key) {
            return Some(i);
        }
        i += 1;
    }
    None
}

/// Finds a tracked chain whose endpoint (its last name) is `key`.
fn find_chain(chains: &Vec<Vec<Vec<u8>>>, key: &Vec<u8>) -> (r: Option<usize>)
    requires
        forall|i: int| 0 <= i < chains@.len() ==> (#[trigger] chains@[i])@.len() >= 1,
    ensures
        match r {
            Some(i) => i < chains@.len() && dv(chains@[i as int]@).last() == key@,
            None => forall|j: int|
                0 <= j < chains@.len() ==> #[trigger] dv(chains@[j]@).last() != key@,
        },
{
    let mut i: usize = 0;
    while i < chains.len()
        invariant
            i <= chains.len(),
            forall|j: int| 0 <= j < chains@.len() ==> (#[trigger] chains@[j])@.len() >= 1,
            forall|j: int| 0 <= j < i ==> #[trigger] dv(chains@[j]@).last() != key@,
        decreases chains.len() - i,
    {
        let ci = &chains[i];
        if bytes_eq(&ci[ci.len() - 1], key) {
            return Some(i);
        }
        i += 1;
    }
    None
}

/// Reverses a chain.
fn reverse_chain(c: Vec<Vec<u8>>) -> (r: Vec<Vec<u8>>)
    ensures
        dv(r@) == dv(c@).reverse(),
{
    let ghost w = dv(c@);
    let mut rest = c;
    let mut out: Vec<Vec<u8>> = Vec::new();
    proof {
        assert(dv(rest@) =~= w.take(rest@.len() as int));
        assert(dv(out@) =~= w.skip(rest@.len() as int).reverse());
    }
    while rest.len() > 0
        invariant
            rest@.len() <= w.len(),
            dv(rest@) == w.take(rest@.len() as int),
            dv(out@) == w.skip(rest@.len() as int).reverse(),
        decreases rest.len(),
    {
        let ghost l = rest@.len() as int;
        let ghost restp = rest@;
        let x = rest.pop().unwrap();
        out.push(x);
        proof {
            assert(dv(rest@) =~= w.take(l - 1));
            assert(x@ == dv(restp)[l - 1]);
            assert(dv(restp)[l - 1] == w.take(l)[l - 1]);
            assert(x@ == w[l - 1]);
            assert(dv(out@) =~= w.skip(l).reverse().push(w[l - 1]));
            assert(w.skip(l - 1).reverse() =~= w.skip(l).reverse().push(w[l - 1]));
        }
    }
    proof {
        assert(dv(out@) =~= w.reverse());
    }
    out
}

/// Splices a reversed working chain onto the end of the chain it traced back
/// to: the junction name (the working chain's last) is dropped and the rest
/// is appended in forward order.
fn splice_onto(upstream: Vec<Vec<u8>>, rc: Vec<Vec<u8>>) -> (r: Vec<Vec<u8>>)
    requires
        rc@.len() >= 1,
    ensures
        dv(r@) == dv(upstream@) + dv(rc@).reverse().drop_first(),
{
    let ghost rc0 = dv(rc@);
    let ghost u0 = dv(upstream@);
    let mut rest = rc;
    let _ = rest.pop();
    proof {
        assert(dv(rest@) =~= rc0.drop_last());
    }
    let mut tail = reverse_chain(rest);
    let mut u = upstream;
    let ghost t0 = dv(tail@);
    u.append(&mut tail);
    proof {
        assert(dv(u@) =~= u0 + t0);
        assert(rc0.drop_last().reverse() =~= rc0.reverse().drop_first());
        assert(dv(u@) =~= u0 + rc0.reverse().drop_first());
    }
    u
}

/// Traces one new chain backward from the pair (dest, source), draining every
/// pair that feeds into it, and stores the result: spliced onto an existing
/// chain, recorded as a cycle when the trace closes on itself, or kept as a
/// new chain.  The edges of the whole state grow by exactly the starting
/// pair's edge.
fn trace_chain(
    rev: &mut Vec<(Vec<u8>, Vec<u8>)>,
    seq_chains: &mut Vec<Vec<Vec<u8>>>,
    cycles: &mut Vec<Vec<Vec<u8>>>,
    dest: Vec<u8>,
    source: Vec<u8>,
)
    requires
        forall|i: int|
            0 <= i < old(seq_chains)@.len() ==> (#[trigger] old(seq_chains)@[i])@.len() >= 2,
        forall|i: int| 0 <= i < old(cycles)@.len() ==> (#[trigger] old(cycles)@[i])@.len() >= 2,
    ensures
        state_edges(final(rev)@, final(seq_chains)@, final(cycles)@) == state_edges(
            old(rev)@,
            old(seq_chains)@,
            old(cycles)@,
        ).insert((source@, dest@)),
        final(rev)@.len() <= old(rev)@.len(),
        forall|i: int|
            0 <= i < final(seq_chains)@.len() ==> (#[trigger] final(seq_chains)@[i])@.len() >= 2,
        forall|i: int|
            0 <= i < final(cycles)@.len() ==> (#[trigger] final(cycles)@[i])@.len() >= 2,
{
    let ghost dve = dest@;
    let ghost sve = source@;
    let ghost target = state_edges(old(rev)@, old(seq_chains)@, old(cycles)@).insert((sve, dve));
    let mut rc: Vec<Vec<u8>> = Vec::new();
    rc.push(dest);
    rc.push(source);
    proof {
        assert(dv(rc@) =~= seq![dve, sve]);
        assert(redge_seq(dv(rc@)) =~= seq![(sve, dve)]);
        assert(seq![(sve, dve)] =~= Seq::<(Seq<u8>, Seq<u8>)>::empty().push((sve, dve)));
        assert(Seq::<(Seq<u8>, Seq<u8>)>::empty().to_multiset() =~= Multiset::<
            (Seq<u8>, Seq<u8>),
        >::empty());
        assert(redge_seq(dv(rc@)).to_multiset() =~= Multiset::<(Seq<u8>, Seq<u8>)>::empty().insert(
            (sve, dve),
        ));
        assert(state_edges(rev@, seq_chains@, cycles@).add(redge_seq(dv(rc@)).to_multiset())
            =~= target);
    }
    loop
        invariant
            rc@.len() >= 2,
            forall|i: int|
                0 <= i < seq_chains@.len() ==> (#[trigger] seq_chains@[i])@.len() >= 2,
            forall|i: int| 0 <= i < cycles@.len() ==> (#[trigger] cycles@[i])@.len() >= 2,
            state_edges(rev@, seq_chains@, cycles@).add(redge_seq(dv(rc@)).to_multiset())
                == target,
            rev@.len() <= old(rev)@.len(),
            sve == source@,
            dve == dest@,
            target == state_edges(old(rev)@, old(seq_chains)@, old(cycles)@).insert((sve, dve)),
        decreases rev@.len(),
    {
        let last_idx = rc.len() - 1;
        let found = find_pair(rev, &rc[last_idx]);
        match found {
            Some(j) => {
                let ghost revp = rev@;
                let ghost rcv = dv(rc@);
                let p = rev.remove(j);
                let more_source = p.1;
                proof {
                    // Removing the pair removes its edge from the remaining
                    // mapping.
                    assert(pairs_edges(pv(rev@)) =~= pairs_edges(pv(revp)).remove(j as int));
                    assert(pairs_edges(pv(revp))[j as int] == (more_source@, rcv.last()));
                    assert(pairs_edges(pv(rev@)).to_multiset() == pairs_edges(
                        pv(revp),
                    ).to_multiset().remove((more_source@, rcv.last())));
                    assert(pairs_edges(pv(revp)).contains((more_source@, rcv.last())));
                    assert(pairs_edges(pv(revp)).to_multiset().count((more_source@, rcv.last()))
                        > 0);
                }
                if bytes_eq(&more_source, &rc[0]) {
                    // The trace closed on the chain's front: a cycle.
                    let cyc = reverse_chain(rc);
                    proof {
                        assert(more_source@ == rcv[0]);
                    }
                    let ghost cycsp = cycles@;
                    cycles.push(cyc);
                    proof {
                        assert(ddv(cycles@).drop_last() =~= ddv(cycsp));
                        assert(ddv(cycles@).last() == rcv.reverse());
                        lemma_edge_reverse(rcv);
                        redge_seq(rcv).lemma_reverse_to_multiset();
                        assert(cycle_edge_seq(rcv.reverse()) == edge_seq(rcv.reverse()) + seq![
                            (rcv[0], rcv.last()),
                        ]);
                        vstd::seq_lib::lemma_multiset_commutative(
                            edge_seq(rcv.reverse()),
                            seq![(rcv[0], rcv.last())],
                        );
                        assert(seq![(rcv[0], rcv.last())] =~= Seq::<
                            (Seq<u8>, Seq<u8>),
                        >::empty().push((rcv[0], rcv.last())));
                        assert(Seq::<(Seq<u8>, Seq<u8>)>::empty().to_multiset() =~= Multiset::<
                            (Seq<u8>, Seq<u8>),
                        >::empty());
                        assert(cycle_edge_seq(rcv.reverse()).to_multiset() =~= redge_seq(
                            rcv,
                        ).to_multiset().insert((rcv[0], rcv.last())));
                        assert(state_edges(rev@, seq_chains@, cycles@) =~= target);
                    }
                    return ;
                }
                let ghost rcb = dv(rc@);
                rc.push(more_source);
                proof {
                    assert(dv(rc@) =~= rcb.push(more_source@));
                    lemma_redge_push(rcb, more_source@);
                    assert(redge_seq(dv(rc@)).to_multiset() =~= redge_seq(rcb).to_multiset().insert(
                        (more_source@, rcb.last()),
                    ));
                    assert(state_edges(rev@, seq_chains@, cycles@).add(
                        redge_seq(dv(rc@)).to_multiset(),
                    ) =~= target);
                }
            },
            None => {
                let last_idx2 = rc.len() - 1;
                let found_chain = find_chain(seq_chains, &rc[last_idx2]);
                match found_chain {
                    Some(ci) => {
                        let ghost chainsp = ddv(seq_chains@);
                        let ghost rcv = dv(rc@);
                        let u = seq_chains.remove(ci);
                        proof {
                            assert(ddv(seq_chains@) =~= chainsp.remove(ci as int));
                            lemma_chains_edges_remove(chainsp, ci as int);
                            assert(chainsp[ci as int] == dv(u@));
                        }
                        let ghost uv = dv(u@);
                        let joined = splice_onto(u, rc);
                        let ghost chainsm = ddv(seq_chains@);
                        seq_chains.push(joined);
                        proof {
                            assert(ddv(seq_chains@).drop_last() =~= chainsm);
                            assert(ddv(seq_chains@).last() == uv + rcv.reverse().drop_first());
                            assert(uv.last() == rcv.last());
                            assert(rcv.reverse().first() == rcv.last());
                            lemma_edge_glue(uv, rcv.reverse());
                            vstd::seq_lib::lemma_multiset_commutative(
                                edge_seq(uv),
                                edge_seq(rcv.reverse()),
                            );
                            lemma_edge_reverse(rcv);
                            redge_seq(rcv).lemma_reverse_to_multiset();
                            assert(edge_seq(uv + rcv.reverse().drop_first()).to_multiset()
                                =~= edge_seq(uv).to_multiset().add(redge_seq(rcv).to_multiset()));
                            assert(state_edges(rev@, seq_chains@, cycles@) =~= target);
                        }
                        return ;
                    },
                    None => {
                        let ghost rcv = dv(rc@);
                        let c = reverse_chain(rc);
                        let ghost chainsp = ddv(seq_chains@);
                        seq_chains.push(c);
                        proof {
                            assert(ddv(seq_chains@).drop_last() =~= chainsp);
                            assert(ddv(seq_chains@).last() == rcv.reverse());
                            lemma_edge_reverse(rcv);
                            redge_seq(rcv).lemma_reverse_to_multiset();
                            assert(edge_seq(rcv.reverse()).to_multiset() =~= redge_seq(
                                rcv,
                            ).to_multiset());
                            assert(state_edges(rev@, seq_chains@, cycles@) =~= target);
                        }
                        return ;
                    },
                }
            },
        }
    }
}

/// The decomposition is a partition of the mapping.  For any chains and
/// cycles whose edges are together exactly the mapping's pairs — what
/// `decompose` ensures — and any mapping whose sources are all distinct:
/// every (source, destination) entry of the mapping occurs as a rename edge
/// exactly once over all chains and cycles, and every rename edge of the
/// plan is an entry of the mapping.
pub proof fn lemma_decomposition_is_partition(
    chains: Seq<Seq<Seq<u8>>>,
    cycles: Seq<Seq<Seq<u8>>>,
    ps: Seq<(Seq<u8>, Seq<u8>)>,
)
    requires
        chains_edges(chains).add(cycles_edges(cycles)) == pairs_edges(ps).to_multiset(),
        forall|i: int, j: int| 0 <= i < j < ps.len() ==> (#[trigger] ps[i]).1 != (#[trigger] ps[j]).1,
    ensures
        forall|i: int|
            0 <= i < ps.len() ==> chains_edges(chains).add(cycles_edges(cycles)).count(
                ((#[trigger] ps[i]).1, ps[i].0),
            ) == 1,
        forall|e: (Seq<u8>, Seq<u8>)|
            #[trigger] chains_edges(chains).add(cycles_edges(cycles)).count(e) > 0 ==> exists|i: int|
                0 <= i < ps.len() && e == ((#[trigger] ps[i]).1, ps[i].0),
{
    let pe = pairs_edges(ps);
    assert(pe.no_duplicates()) by {
        assert forall|i: int, j: int| 0 <= i < j < pe.len() implies pe[i] != pe[j] by {
            assert(pe[i].0 == ps[i].1 && pe[j].0 == ps[j].1);
        }
    }
    pe.lemma_multiset_has_no_duplicates();
    assert forall|i: int| 0 <= i < ps.len() implies chains_edges(chains).add(
        cycles_edges(cycles),
    ).count((ps[i].1, ps[i].0)) == 1 by {
        assert(pe[i] == (ps[i].1, ps[i].0));
        assert(pe.contains(pe[i]));
        assert(pe.to_multiset().count(pe[i]) > 0);
    }
    assert forall|e: (Seq<u8>, Seq<u8>)| #[trigger] chains_edges(chains).add(
        cycles_edges(cycles),
    ).count(e) > 0 implies exists|i: int| 0 <= i < ps.len() && e == ((#[trigger] ps[i]).1, ps[i].0)
        by {
        assert(pe.to_multiset().count(e) > 0);
        assert(pe.contains(e));
        let i = choose|i: int| 0 <= i < pe.len() && pe[i] == e;
        assert(e == (ps[i].1, ps[i].0));
    }
}

/// No rename of a name onto itself is ever planned: when no mapping entry is
/// an identity, no chain or cycle holds an identity edge.
pub proof fn lemma_no_identity_edges(
    chains: Seq<Seq<Seq<u8>>>,
    cycles: Seq<Seq<Seq<u8>>>,
    ps: Seq<(Seq<u8>, Seq<u8>)>,
)
    requires
        chains_edges(chains).add(cycles_edges(cycles)) == pairs_edges(ps).to_multiset(),
        forall|i: int| 0 <= i < ps.len() ==> (#[trigger] ps[i]).0 != ps[i].1,
    ensures
        forall|f: Seq<u8>|
            #[trigger] chains_edges(chains).add(cycles_edges(cycles)).count((f, f)) == 0,
{
    let pe = pairs_edges(ps);
    assert forall|f: Seq<u8>| #[trigger] chains_edges(chains).add(cycles_edges(cycles)).count(
        (f, f),
    ) == 0 by {
        if pe.to_multiset().count((f, f)) > 0 {
            assert(pe.contains((f, f)));
            let i = choose|i: int| 0 <= i < pe.len() && pe[i] == (f, f);
            assert(ps[i].0 == f && ps[i].1 == f);
            assert(false);
        }
    }
}

/// Decomposes the reversed mapping's (destination, source) pairs into acyclic
/// chains and cycles.  Every chain and cycle has at least two names, and the
/// multiset of rename edges over all of them is exactly the multiset of
/// (source, destination) pairs of the mapping: a partition of the mapping
/// into chains and cycles.
pub fn decompose(rev: Vec<(Vec<u8>, Vec<u8>)>) -> (r: (Vec<Vec<Vec<u8>>>, Vec<Vec<Vec<u8>>>))
    ensures
        chains_edges(ddv(r.0@)).add(cycles_edges(ddv(r.1@))) == pairs_edges(
            pv(rev@),
        ).to_multiset(),
        forall|i: int| 0 <= i < r.0@.len() ==> (#[trigger] r.0@[i])@.len() >= 2,
        forall|i: int| 0 <= i < r.1@.len() ==> (#[trigger] r.1@[i])@.len() >= 2,
{
    let ghost m0 = pairs_edges(pv(rev@)).to_multiset();
    let mut rev_rem = rev;
    let mut seq_chains: Vec<Vec<Vec<u8>>> = Vec::new();
    let mut cycles: Vec<Vec<Vec<u8>>> = Vec::new();
    proof {
        assert(ddv(seq_chains@) =~= Seq::<Seq<Seq<u8>>>::empty());
        assert(ddv(cycles@) =~= Seq::<Seq<Seq<u8>>>::empty());
        assert(state_edges(rev_rem@, seq_chains@, cycles@) =~= m0);
    }
    while rev_rem.len() > 0
        invariant
            forall|i: int|
                0 <= i < seq_chains@.len() ==> (#[trigger] seq_chains@[i])@.len() >= 2,
            forall|i: int| 0 <= i < cycles@.len() ==> (#[trigger] cycles@[i])@.len() >= 2,
            state_edges(rev_rem@, seq_chains@, cycles@) == m0,
        decreases rev_rem.len(),
    {
        let ghost revp = rev_rem@;
        let p = rev_rem.pop().unwrap();
        let dest = p.0;
        let source = p.1;
        let ghost dve = dest@;
        let ghost sve = source@;
        proof {
            assert(pairs_edges(pv(revp)) =~= pairs_edges(pv(rev_rem@)).push((sve, dve)));
            assert(pairs_edges(pv(revp)).to_multiset() == pairs_edges(
                pv(rev_rem@),
            ).to_multiset().insert((sve, dve)));
        }
        let found = find_chain(&seq_chains, &source);
        match found {
            Some(ci) => {
                let ghost chainsp = ddv(seq_chains@);
                let mut c = seq_chains.remove(ci);
                proof {
                    assert(ddv(seq_chains@) =~= chainsp.remove(ci as int));
                    lemma_chains_edges_remove(chainsp, ci as int);
                    assert(chainsp[ci as int] == dv(c@));
                }
                let ghost cv = dv(c@);
                c.push(dest);
                proof {
                    assert(dv(c@) =~= cv.push(dve));
                    lemma_edge_push(cv, dve);
                    assert(cv.last() == sve);
                    assert(edge_seq(dv(c@)).to_multiset() =~= edge_seq(cv).to_multiset().insert(
                        (sve, dve),
                    ));
                }
                let ghost chainsm = ddv(seq_chains@);
                seq_chains.push(c);
                proof {
                    assert(ddv(seq_chains@).drop_last() =~= chainsm);
                    assert(state_edges(rev_rem@, seq_chains@, cycles@) =~= m0);
                }
            },
            None => {
                trace_chain(&mut rev_rem, &mut seq_chains, &mut cycles, dest, source);
                proof {
                    assert(state_edges(rev_rem@, seq_chains@, cycles@) =~= m0);
                }
            },
        }
    }
    proof {
        assert(pairs_edges(pv(rev_rem@)) =~= Seq::<(Seq<u8>, Seq<u8>)>::empty());
        assert(Seq::<(Seq<u8>, Seq<u8>)>::empty().to_multiset() =~= Multiset::<
            (Seq<u8>, Seq<u8>),
        >::empty());
        assert(chains_edges(ddv(seq_chains@)).add(cycles_edges(ddv(cycles@))) =~= m0);
    }
    (seq_chains, cycles)
}

} // verus!
