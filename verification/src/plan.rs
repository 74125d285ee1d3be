//! Rename plans: the chains and cycles of a bulk rename, and the exact
//! ordered rename operations that execute them.

use vstd::prelude::*;

use crate::bytes_order::{clone_bytes, ddv, dv};
use crate::chains::{chains_edges, cycle_edge_seq, cycles_edges, edge_seq};

verus! {

broadcast use vstd::seq_lib::group_to_multiset_ensures, vstd::multiset::group_multiset_axioms;

/// A location a rename reads from or writes to: a name directly inside the
/// target directory, or the same name inside the temporary holding directory
/// used to break cycles.
#[derive(Debug, Clone, PartialEq, Eq)]
pub enum Loc {
    /// A direct child of the target directory.
    InDir(Vec<u8>),
    /// A child of the temporary holding directory.
    InTemp(Vec<u8>),
}

/// Specification-level location.
#[verifier::ext_equal]
pub enum LocSpec {
    /// A direct child of the target directory.
    InDir(Seq<u8>),
    /// A child of the temporary holding directory.
    InTemp(Seq<u8>),
}

impl View for Loc {
    type V = LocSpec;

    open spec fn view(&self) -> LocSpec {
        match self {
            Loc::InDir(n) => LocSpec::InDir(n@),
            Loc::InTemp(n) => LocSpec::InTemp(n@),
        }
    }
}

/// One rename step: move the entry at `src` to `dest`.
#[derive(Debug, Clone, PartialEq, Eq)]
pub struct RenameOp {
    /// Where the entry is now.
    pub src: Loc,
    /// Where it is moved to.
    pub dest: Loc,
}

impl View for RenameOp {
    type V = (LocSpec, LocSpec);

    open spec fn view(&self) -> (LocSpec, LocSpec) {
        (self.src@, self.dest@)
    }
}

/// The views of a list of rename operations.
pub open spec fn ops_view(s: Seq<RenameOp>) -> Seq<(LocSpec, LocSpec)> {
    Seq::new(s.len(), |i: int| s[i]@)
}

/// The operations that execute one acyclic chain `f0 -> f1 -> ... -> fn`:
/// renames in destination-first order, `f(n-1) -> fn` first, `f0 -> f1` last.
pub open spec fn seq_chain_ops(c: Seq<Seq<u8>>) -> Seq<(LocSpec, LocSpec)> {
    if c.len() < 2 {
        Seq::empty()
    } else {
        Seq::new(
            (c.len() - 1) as nat,
            |k: int| (LocSpec::InDir(c[c.len() - 2 - k]), LocSpec::InDir(c[c.len() - 1 - k])),
        )
    }
}

/// The operations that execute one cyclic chain: park the cycle's last name
/// in the temporary directory, run the remaining chain destination-first,
/// then complete the loop from the parked copy.
pub open spec fn cyc_chain_ops(c: Seq<Seq<u8>>) -> Seq<(LocSpec, LocSpec)> {
    if c.len() < 2 {
        Seq::empty()
    } else {
        seq![(LocSpec::InDir(c.last()), LocSpec::InTemp(c.last()))] + seq_chain_ops(c) + seq![
            (LocSpec::InTemp(c.last()), LocSpec::InDir(c.first())),
        ]
    }
}

/// The operations of a list of acyclic chains, in order.
pub open spec fn chains_ops(cs: Seq<Seq<Seq<u8>>>) -> Seq<(LocSpec, LocSpec)>
    decreases cs.len(),
{
    if cs.len() == 0 {
        Seq::empty()
    } else {
        chains_ops(cs.drop_last()) + seq_chain_ops(cs.last())
    }
}

/// The operations of a list of cyclic chains, in order.
pub open spec fn cycles_ops(cs: Seq<Seq<Seq<u8>>>) -> Seq<(LocSpec, LocSpec)>
    decreases cs.len(),
{
    if cs.len() == 0 {
        Seq::empty()
    } else {
        cycles_ops(cs.drop_last()) + cyc_chain_ops(cs.last())
    }
}

/// All operations of a plan: every acyclic chain first, then every cycle.
/// The list depends on the plan alone, so a dry run issues exactly the same
/// steps as a real run.
pub open spec fn plan_ops(chains: Seq<Seq<Seq<u8>>>, cycles: Seq<Seq<Seq<u8>>>) -> Seq<
    (LocSpec, LocSpec),
> {
    chains_ops(chains) + cycles_ops(cycles)
}

/// Pushing one operation appends its view.
proof fn lemma_ops_view_push(pre: Seq<RenameOp>, post: Seq<RenameOp>, v: (LocSpec, LocSpec))
    requires
        post.len() == pre.len() + 1,
        forall|i: int| 0 <= i < pre.len() ==> post[i] == pre[i],
        post[pre.len() as int]@ == v,
    ensures
        ops_view(post) == ops_view(pre).push(v),
{
    assert(ops_view(post) =~= ops_view(pre).push(v));
}

/// Appending one chain appends its operations.
proof fn lemma_chains_ops_take_snoc(cs: Seq<Seq<Seq<u8>>>, i: int)
    requires
        0 <= i < cs.len(),
    ensures
        chains_ops(cs.take(i + 1)) == chains_ops(cs.take(i)) + seq_chain_ops(cs[i]),
        cycles_ops(cs.take(i + 1)) == cycles_ops(cs.take(i)) + cyc_chain_ops(cs[i]),
{
    assert(cs.take(i + 1).drop_last() =~= cs.take(i));
    assert(cs.take(i + 1).last() == cs[i]);
}

/// Plan of a bulk rename.
#[derive(Debug, Clone)]
pub struct RenamePlan {
    /// Path of the directory whose entries are renamed.
    pub source_dir: Vec<u8>,
    /// Acyclic rename chains `f0 -> f1 -> ... -> fn`, each of length two or
    /// more.
    pub seq_rename_chains: Vec<Vec<Vec<u8>>>,
    /// Cyclic rename chains, as the cycle's member list without repeating the
    /// endpoint, each of length two or more.
    pub cyclic_rename_chains: Vec<Vec<Vec<u8>>>,
}

/// Appends the operations of one acyclic chain, destination-first.
pub fn rename_seq_chain(chain: &Vec<Vec<u8>>, ops: &mut Vec<RenameOp>)
    ensures
        ops_view(final(ops)@) == ops_view(old(ops)@) + seq_chain_ops(dv(chain@)),
{
    let ghost base = ops_view(old(ops)@);
    let ghost c = dv(chain@);
    if chain.len() < 2 {
        proof {
            assert(ops_view(ops@) =~~= base + seq_chain_ops(c));
        }
        return ;
    }
    let n = chain.len();
    let mut k: usize = 0;
    proof {
        assert(ops_view(ops@) =~~= base + seq_chain_ops(c).take(0));
    }
    while k < n - 1
        invariant
            2 <= n == chain.len(),
            c == dv(chain@),
            k <= n - 1,
            ops_view(ops@) == base + seq_chain_ops(c).take(k as int),
        decreases n - 1 - k,
    {
        let src = clone_bytes(&chain[n - 2 - k]);
        let dest = clone_bytes(&chain[n - 1 - k]);
        let ghost opv = (LocSpec::InDir(src@), LocSpec::InDir(dest@));
        let ghost pre = ops@;
        ops.push(RenameOp { src: Loc::InDir(src), dest: Loc::InDir(dest) });
        proof {
            assert(ops@[pre.len() as int]@ =~~= opv);
            assert(opv =~~= seq_chain_ops(c)[k as int]);
            lemma_ops_view_push(pre, ops@, seq_chain_ops(c)[k as int]);
            assert(seq_chain_ops(c).take(k + 1) =~= seq_chain_ops(c).take(k as int).push(
                seq_chain_ops(c)[k as int],
            ));
            assert(ops_view(ops@) =~= base + seq_chain_ops(c).take(k + 1));
        }
        k += 1;
    }
    proof {
        assert(seq_chain_ops(c).take(n - 1) =~= seq_chain_ops(c));
    }
}

/// Appends the operations of one cyclic chain: park the last name, run the
/// chain destination-first, then complete the loop from the parked copy.
pub fn rename_cyc_chain(chain: &Vec<Vec<u8>>, ops: &mut Vec<RenameOp>)
    ensures
        ops_view(final(ops)@) == ops_view(old(ops)@) + cyc_chain_ops(dv(chain@)),
{
    let ghost base = ops_view(old(ops)@);
    let ghost c = dv(chain@);
    if chain.len() < 2 {
        proof {
            assert(ops_view(ops@) =~~= base + cyc_chain_ops(c));
        }
        return ;
    }
    let park_src = clone_bytes(&chain[chain.len() - 1]);
    let park_dest = clone_bytes(&chain[chain.len() - 1]);
    let ghost pre0 = ops@;
    ops.push(RenameOp { src: Loc::InDir(park_src), dest: Loc::InTemp(park_dest) });
    proof {
        let parkv = (LocSpec::InDir(c.last()), LocSpec::InTemp(c.last()));
        assert(ops@[pre0.len() as int]@ =~~= parkv);
        lemma_ops_view_push(pre0, ops@, parkv);
        assert(ops_view(ops@) =~= base + seq![parkv]);
    }
    let ghost mid0 = ops_view(ops@);
    rename_seq_chain(chain, ops);
    let unpark_src = clone_bytes(&chain[chain.len() - 1]);
    let unpark_dest = clone_bytes(&chain[0]);
    let ghost pre1 = ops@;
    ops.push(RenameOp { src: Loc::InTemp(unpark_src), dest: Loc::InDir(unpark_dest) });
    proof {
        let unparkv = (LocSpec::InTemp(c.last()), LocSpec::InDir(c.first()));
        assert(ops@[pre1.len() as int]@ =~~= unparkv);
        lemma_ops_view_push(pre1, ops@, unparkv);
        assert(ops_view(pre1) == mid0 + seq_chain_ops(c));
        assert(cyc_chain_ops(c) == seq![
            (LocSpec::InDir(c.last()), LocSpec::InTemp(c.last())),
        ] + seq_chain_ops(c) + seq![unparkv]);
        assert(ops_view(ops@) =~= base + cyc_chain_ops(c));
    }
}

impl RenamePlan {
    /// Computes the rename operations, in execution order, that run this
    /// plan.  The result depends on nothing but the plan's chains and
    /// cycles.
    pub fn rename_ops(&self) -> (r: Vec<RenameOp>)
        ensures
            ops_view(r@) == plan_ops(ddv(self.seq_rename_chains@), ddv(self.cyclic_rename_chains@)),
    {
        let ghost scs = ddv(self.seq_rename_chains@);
        let ghost ccs = ddv(self.cyclic_rename_chains@);
        let mut ops: Vec<RenameOp> = Vec::new();
        let mut i: usize = 0;
        proof {
            assert(scs.take(0) =~= Seq::<Seq<Seq<u8>>>::empty());
            assert(ops_view(ops@) =~~= chains_ops(scs.take(0)));
        }
        while i < self.seq_rename_chains.len()
            invariant
                i <= self.seq_rename_chains.len(),
                scs == ddv(self.seq_rename_chains@),
                ccs == ddv(self.cyclic_rename_chains@),
                ops_view(ops@) == chains_ops(scs.take(i as int)),
            decreases self.seq_rename_chains.len() - i,
        {
            rename_seq_chain(&self.seq_rename_chains[i], &mut ops);
            proof {
                lemma_chains_ops_take_snoc(scs, i as int);
                assert(dv(self.seq_rename_chains@[i as int]@) == scs[i as int]);
            }
            i += 1;
        }
        proof {
            assert(scs.take(scs.len() as int) =~= scs);
        }
        let mut j: usize = 0;
        proof {
            assert(ccs.take(0) =~= Seq::<Seq<Seq<u8>>>::empty());
            assert(ops_view(ops@) =~~= chains_ops(scs) + cycles_ops(ccs.take(0)));
        }
        while j < self.cyclic_rename_chains.len()
            invariant
                j <= self.cyclic_rename_chains.len(),
                scs == ddv(self.seq_rename_chains@),
                ccs == ddv(self.cyclic_rename_chains@),
                ops_view(ops@) == chains_ops(scs) + cycles_ops(ccs.take(j as int)),
            decreases self.cyclic_rename_chains.len() - j,
        {
            rename_cyc_chain(&self.cyclic_rename_chains[j], &mut ops);
            proof {
                lemma_chains_ops_take_snoc(ccs, j as int);
                assert(dv(self.cyclic_rename_chains@[j as int]@) == ccs[j as int]);
                assert(ops_view(ops@) =~~= chains_ops(scs) + cycles_ops(ccs.take(j + 1)));
            }
            j += 1;
        }
        proof {
            assert(ccs.take(ccs.len() as int) =~= ccs);
        }
        ops
    }

    /// True when the plan holds at least one cycle, so a real run needs a
    /// temporary holding directory.
    pub fn has_cycles(&self) -> (r: bool)
        ensures
            r == (self.cyclic_rename_chains@.len() > 0),
    {
        self.cyclic_rename_chains.len() > 0
    }
}

/// Each operation of a chain list comes from one of its chains.
proof fn lemma_chains_ops_elem(cs: Seq<Seq<Seq<u8>>>, k: int)
    requires
        0 <= k < chains_ops(cs).len(),
    ensures
        exists|i: int, j: int|
            0 <= i < cs.len() && 0 <= j < seq_chain_ops(cs[i]).len() && chains_ops(cs)[k]
                == #[trigger] seq_chain_ops(cs[i])[j],
    decreases cs.len(),
{
    if k < chains_ops(cs.drop_last()).len() {
        lemma_chains_ops_elem(cs.drop_last(), k);
        let (i, j) = choose|i: int, j: int|
            0 <= i < cs.drop_last().len() && 0 <= j < seq_chain_ops(cs.drop_last()[i]).len()
                && chains_ops(cs.drop_last())[k] == #[trigger] seq_chain_ops(cs.drop_last()[i])[j];
        assert(cs.drop_last()[i] == cs[i]);
        assert(chains_ops(cs)[k] == seq_chain_ops(cs[i])[j]);
    } else {
        let j = k - chains_ops(cs.drop_last()).len();
        assert(chains_ops(cs)[k] == seq_chain_ops(cs[cs.len() - 1])[j]);
    }
}

/// Each operation of a cycle list comes from one of its cycles.
proof fn lemma_cycles_ops_elem(cs: Seq<Seq<Seq<u8>>>, k: int)
    requires
        0 <= k < cycles_ops(cs).len(),
    ensures
        exists|i: int, j: int|
            0 <= i < cs.len() && 0 <= j < cyc_chain_ops(cs[i]).len() && cycles_ops(cs)[k]
                == #[trigger] cyc_chain_ops(cs[i])[j],
    decreases cs.len(),
{
    if k < cycles_ops(cs.drop_last()).len() {
        lemma_cycles_ops_elem(cs.drop_last(), k);
        let (i, j) = choose|i: int, j: int|
            0 <= i < cs.drop_last().len() && 0 <= j < cyc_chain_ops(cs.drop_last()[i]).len()
                && cycles_ops(cs.drop_last())[k] == #[trigger] cyc_chain_ops(cs.drop_last()[i])[j];
        assert(cs.drop_last()[i] == cs[i]);
        assert(cycles_ops(cs)[k] == cyc_chain_ops(cs[i])[j]);
    } else {
        let j = k - cycles_ops(cs.drop_last()).len();
        assert(cycles_ops(cs)[k] == cyc_chain_ops(cs[cs.len() - 1])[j]);
    }
}

/// The edge multiset of the whole chain list bounds each chain's own edges.
proof fn lemma_chains_edges_bound(cs: Seq<Seq<Seq<u8>>>, i: int, e: (Seq<u8>, Seq<u8>))
    requires
        0 <= i < cs.len(),
    ensures
        chains_edges(cs).count(e) >= edge_seq(cs[i]).to_multiset().count(e),
    decreases cs.len(),
{
    if i < cs.len() - 1 {
        lemma_chains_edges_bound(cs.drop_last(), i, e);
        assert(cs.drop_last()[i] == cs[i]);
    }
}

/// The edge multiset of the whole cycle list bounds each cycle's own edges.
proof fn lemma_cycles_edges_bound(cs: Seq<Seq<Seq<u8>>>, i: int, e: (Seq<u8>, Seq<u8>))
    requires
        0 <= i < cs.len(),
    ensures
        cycles_edges(cs).count(e) >= cycle_edge_seq(cs[i]).to_multiset().count(e),
    decreases cs.len(),
{
    if i < cs.len() - 1 {
        lemma_cycles_edges_bound(cs.drop_last(), i, e);
        assert(cs.drop_last()[i] == cs[i]);
    }
}

/// No operation of a plan moves a name onto itself.  The park and unpark
/// steps of a cycle change location, and when the plan's edges hold no
/// identity entry — true of every plan built from a mapping, whose identity
/// entries are dropped — neither does any chain step.
pub proof fn lemma_no_identity_ops(chains: Seq<Seq<Seq<u8>>>, cycles: Seq<Seq<Seq<u8>>>)
    requires
        forall|f: Seq<u8>|
            #[trigger] chains_edges(chains).add(cycles_edges(cycles)).count((f, f)) == 0,
    ensures
        forall|k: int|
            0 <= k < plan_ops(chains, cycles).len() ==> (#[trigger] plan_ops(chains, cycles)[k]).0
                != plan_ops(chains, cycles)[k].1,
{
    assert forall|k: int| 0 <= k < plan_ops(chains, cycles).len() implies (#[trigger] plan_ops(
        chains,
        cycles,
    )[k]).0 != plan_ops(chains, cycles)[k].1 by {
        let ops = plan_ops(chains, cycles);
        if k < chains_ops(chains).len() {
            lemma_chains_ops_elem(chains, k);
            let (i, j) = choose|i: int, j: int|
                0 <= i < chains.len() && 0 <= j < seq_chain_ops(chains[i]).len() && chains_ops(
                    chains,
                )[k] == #[trigger] seq_chain_ops(chains[i])[j];
            let c = chains[i];
            if ops[k].0 == ops[k].1 {
                let f = c[c.len() - 2 - j];
                assert(ops[k] == (LocSpec::InDir(c[c.len() - 2 - j]), LocSpec::InDir(
                    c[c.len() - 1 - j],
                )));
                assert(c[c.len() - 2 - j] == c[c.len() - 1 - j]);
                assert(edge_seq(c)[c.len() - 2 - j] == (f, f));
                assert(edge_seq(c).contains((f, f)));
                assert(edge_seq(c).to_multiset().count((f, f)) > 0);
                lemma_chains_edges_bound(chains, i, (f, f));
                assert(chains_edges(chains).add(cycles_edges(cycles)).count((f, f)) > 0);
                assert(false);
            }
        } else {
            let kc = k - chains_ops(chains).len();
            lemma_cycles_ops_elem(cycles, kc);
            let (i, j) = choose|i: int, j: int|
                0 <= i < cycles.len() && 0 <= j < cyc_chain_ops(cycles[i]).len() && cycles_ops(
                    cycles,
                )[kc] == #[trigger] cyc_chain_ops(cycles[i])[j];
            let c = cycles[i];
            assert(ops[k] == cyc_chain_ops(c)[j]);
            if j == 0 || j == cyc_chain_ops(c).len() - 1 {
                // Parking and unparking change between the directory and the
                // temporary holding directory.
                assert(ops[k].0 != ops[k].1);
            } else {
                let js = j - 1;
                assert(cyc_chain_ops(c)[j] == seq_chain_ops(c)[js]);
                if ops[k].0 == ops[k].1 {
                    let f = c[c.len() - 2 - js];
                    assert(c[c.len() - 2 - js] == c[c.len() - 1 - js]);
                    assert(edge_seq(c)[c.len() - 2 - js] == (f, f));
                    assert(edge_seq(c).contains((f, f)));
                    assert(edge_seq(c).to_multiset().count((f, f)) > 0);
                    assert(cycle_edge_seq(c) == edge_seq(c) + seq![(c.last(), c.first())]);
                    vstd::seq_lib::lemma_multiset_commutative(
                        edge_seq(c),
                        seq![(c.last(), c.first())],
                    );
                    assert(cycle_edge_seq(c).to_multiset().count((f, f)) > 0);
                    lemma_cycles_edges_bound(cycles, i, (f, f));
                    assert(chains_edges(chains).add(cycles_edges(cycles)).count((f, f)) > 0);
                    assert(false);
                }
            }
        }
    }
}

/// Rename backend selector: the real filesystem, or a dry run that only
/// reports each step.
#[derive(Debug, Clone, PartialEq, Eq, Structural)]
pub enum Renamer {
    /// Rename through the filesystem.
    StdFs,
    /// Dry run: report the steps, mutate nothing, allocate no temporary
    /// directory.
    DryRun,
}

impl Renamer {
    /// Returns true if this is a dry-run renamer, which performs no rename
    /// and needs no temporary directory.
    pub fn is_dry_run(&self) -> (r: bool)
        ensures
            r == (self matches Renamer::DryRun),
    {
        matches!(*self, Renamer::DryRun)
    }
}

} // verus!
