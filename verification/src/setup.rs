//! Setup of a bulk rename: the directory snapshot, the rendered editable
//! list, and the construction of a rename plan from the edited list.

use vstd::prelude::*;

use crate::bytes_order::{
    bytes_eq, clone_bytes, ddv, dv, dedup_sorted, sort_names, strictly_sorted,
};
use crate::chains::{chains_edges, cycles_edges, decompose, pairs_edges, pv};
use crate::errors::RenameError;
use crate::escape::{decoded_line, encoded_name, Escape, LineSeparator};
use crate::plan::RenamePlan;

verus! {

broadcast use vstd::seq_lib::group_to_multiset_ensures, vstd::multiset::group_multiset_axioms;

/// Index of the first occurrence of `sep` in `data`, or `data.len()` if there
/// is none.
pub open spec fn first_sep(data: Seq<u8>, sep: u8) -> nat
    decreases data.len(),
{
    if data.len() == 0 {
        0
    } else if data[0] == sep {
        0
    } else {
        1 + first_sep(data.drop_first(), sep)
    }
}

/// The lines of the edited text: each line ends at a separator or at the end
/// of the data, and a trailing separator opens no extra empty line.
pub open spec fn split_lines_spec(data: Seq<u8>, sep: u8) -> Seq<Seq<u8>>
    decreases data.len(),
{
    if data.len() == 0 {
        Seq::empty()
    } else {
        let k = first_sep(data, sep);
        if k >= data.len() {
            seq![data]
        } else {
            seq![data.take(k as int)] + split_lines_spec(data.skip(k as int + 1), sep)
        }
    }
}

/// A position with no separator before it, and a separator (or the end) at
/// it, is the first separator position.
proof fn lemma_first_sep_at(data: Seq<u8>, sep: u8, k: int)
    requires
        0 <= k <= data.len(),
        forall|m: int| 0 <= m < k ==> data[m] != sep,
        k < data.len() ==> data[k] == sep,
    ensures
        first_sep(data, sep) == k,
    decreases data.len(),
{
    if data.len() == 0 {
    } else if data[0] == sep {
        assert(k == 0);
    } else {
        assert(k >= 1);
        assert forall|m: int| 0 <= m < k - 1 implies data.drop_first()[m] != sep by {
            assert(data.drop_first()[m] == data[m + 1]);
        }
        assert(k - 1 < data.drop_first().len() ==> data.drop_first()[k - 1] == data[k]);
        lemma_first_sep_at(data.drop_first(), sep, k - 1);
    }
}

/// Scans for the next occurrence of `sep` at or after `from`; returns the
/// data's length when there is none.
fn scan_sep(data: &Vec<u8>, sep: u8, from: usize) -> (k: usize)
    requires
        from <= data@.len(),
    ensures
        from <= k <= data@.len(),
        forall|m: int| from <= m < k ==> data@[m] != sep,
        k < data@.len() ==> data@[k as int] == sep,
{
    let mut k = from;
    while k < data.len()
        invariant
            from <= k <= data@.len(),
            forall|m: int| from <= m < k ==> data@[m] != sep,
        decreases data@.len() - k,
    {
        if data[k] == sep {
            return k;
        }
        k += 1;
    }
    k
}

/// Copies the byte range `start..end` out of `data`.
fn copy_range(data: &Vec<u8>, start: usize, end: usize) -> (r: Vec<u8>)
    requires
        start <= end <= data@.len(),
    ensures
        r@ == data@.subrange(start as int, end as int),
{
    let mut out: Vec<u8> = Vec::new();
    let mut i = start;
    while i < end
        invariant
            start <= i <= end <= data@.len(),
            out@ == data@.subrange(start as int, i as int),
        decreases end - i,
    {
        out.push(data[i]);
        proof {
            assert(data@.subrange(start as int, i + 1) =~= data@.subrange(
                start as int,
                i as int,
            ).push(data@[i as int]));
        }
        i += 1;
    }
    out
}

/// Splits the edited text into lines on the separator byte.
pub fn split_lines(data: &Vec<u8>, sep: u8) -> (r: Vec<Vec<u8>>)
    ensures
        dv(r@) == split_lines_spec(data@, sep),
{
    let mut out: Vec<Vec<u8>> = Vec::new();
    let mut pos: usize = 0;
    proof {
        assert(data@.skip(0) =~= data@);
        assert(dv(out@) =~= Seq::<Seq<u8>>::empty());
        assert(split_lines_spec(data@, sep) =~= dv(out@) + split_lines_spec(data@.skip(0), sep));
    }
    while pos < data.len()
        invariant
            pos <= data@.len(),
            split_lines_spec(data@, sep) == dv(out@) + split_lines_spec(
                data@.skip(pos as int),
                sep,
            ),
        decreases data@.len() - pos,
    {
        let ghost rem = data@.skip(pos as int);
        let k = scan_sep(data, sep, pos);
        proof {
            assert forall|m: int| 0 <= m < k - pos implies rem[m] != sep by {
                assert(rem[m] == data@[pos + m]);
            }
            if k < data@.len() {
                assert(rem[k - pos] == data@[k as int]);
            }
            lemma_first_sep_at(rem, sep, k - pos);
        }
        let line = copy_range(data, pos, k);
        proof {
            assert(line@ =~= rem.take(k - pos));
        }
        let ghost outp = dv(out@);
        out.push(line);
        proof {
            assert(dv(out@) =~= outp.push(rem.take(k - pos)));
        }
        if k < data.len() {
            proof {
                assert(split_lines_spec(rem, sep) == seq![rem.take(k - pos)]
                    + split_lines_spec(rem.skip(k - pos + 1), sep));
                assert(rem.skip(k - pos + 1) =~= data@.skip(k + 1));
                assert(dv(out@) + split_lines_spec(data@.skip(k + 1), sep) =~= outp + split_lines_spec(
                    rem,
                    sep,
                ));
            }
            pos = k + 1;
        } else {
            proof {
                assert(rem.take(k - pos) =~= rem);
                assert(split_lines_spec(rem, sep) == seq![rem]);
                assert(data@.skip(data@.len() as int) =~= Seq::<u8>::empty());
                assert(split_lines_spec(data@.skip(data@.len() as int), sep)
                    =~= Seq::<Seq<u8>>::empty());
                assert(dv(out@) + split_lines_spec(data@.skip(data@.len() as int), sep) =~= outp
                    + split_lines_spec(rem, sep));
            }
            pos = data.len();
        }
    }
    proof {
        assert(data@.skip(pos as int) =~= Seq::<u8>::empty());
        assert(split_lines_spec(data@.skip(pos as int), sep) =~= Seq::<Seq<u8>>::empty());
        assert(dv(out@) =~= dv(out@) + split_lines_spec(data@.skip(pos as int), sep));
    }
    out
}

/// The destinations decoded from the edited lines.
pub open spec fn dests_of(e: Escape, lines: Seq<Seq<u8>>) -> Seq<Seq<u8>> {
    Seq::new(lines.len(), |i: int| decoded_line(e, lines[i]))
}

/// The reversed (destination, source) pairs of the first `n` entries,
/// dropping entries whose destination equals their source.
pub open spec fn rev_pairs(entries: Seq<Seq<u8>>, dests: Seq<Seq<u8>>, n: int) -> Seq<
    (Seq<u8>, Seq<u8>),
>
    decreases n,
{
    if n <= 0 {
        Seq::empty()
    } else {
        let p = rev_pairs(entries, dests, n - 1);
        if entries[n - 1] == dests[n - 1] {
            p
        } else {
            p.push((dests[n - 1], entries[n - 1]))
        }
    }
}

/// Entry `i` is a real rename whose destination an earlier real rename
/// already claimed.
pub open spec fn dup_at(entries: Seq<Seq<u8>>, dests: Seq<Seq<u8>>, i: int) -> bool {
    entries[i] != dests[i] && exists|j: int|
        0 <= j < i && entries[j] != dests[j] && dests[j] == dests[i]
}

/// Every pair of `rev_pairs` comes from a non-identity entry.
proof fn lemma_rev_pairs_mem(entries: Seq<Seq<u8>>, dests: Seq<Seq<u8>>, n: int, idx: int)
    requires
        0 <= idx < rev_pairs(entries, dests, n).len(),
    ensures
        exists|j: int|
            0 <= j < n && entries[j] != dests[j] && rev_pairs(entries, dests, n)[idx] == (
            dests[j],
            entries[j],
            ),
    decreases n,
{
    if n > 0 {
        let p = rev_pairs(entries, dests, n - 1);
        if entries[n - 1] == dests[n - 1] {
            lemma_rev_pairs_mem(entries, dests, n - 1, idx);
            let j = choose|j: int|
                0 <= j < n - 1 && entries[j] != dests[j] && rev_pairs(entries, dests, n - 1)[idx]
                    == (dests[j], entries[j]);
            assert(rev_pairs(entries, dests, n)[idx] == (dests[j], entries[j]));
        } else {
            if idx < p.len() {
                lemma_rev_pairs_mem(entries, dests, n - 1, idx);
                let j = choose|j: int|
                    0 <= j < n - 1 && entries[j] != dests[j] && rev_pairs(
                        entries,
                        dests,
                        n - 1,
                    )[idx] == (dests[j], entries[j]);
                assert(rev_pairs(entries, dests, n)[idx] == (dests[j], entries[j]));
            } else {
                assert(rev_pairs(entries, dests, n)[idx] == (dests[n - 1], entries[n - 1]));
            }
        }
    }
}

/// Every non-identity entry contributes its pair to `rev_pairs`.
proof fn lemma_rev_pairs_has(entries: Seq<Seq<u8>>, dests: Seq<Seq<u8>>, n: int, j: int)
    requires
        0 <= j < n,
        entries[j] != dests[j],
    ensures
        exists|idx: int|
            0 <= idx < rev_pairs(entries, dests, n).len() && #[trigger] rev_pairs(
                entries,
                dests,
                n,
            )[idx] == (dests[j], entries[j]),
    decreases n,
{
    if j == n - 1 {
        let p = rev_pairs(entries, dests, n - 1);
        assert(rev_pairs(entries, dests, n)[p.len() as int] == (dests[j], entries[j]));
    } else {
        lemma_rev_pairs_has(entries, dests, n - 1, j);
        let idx = choose|idx: int|
            0 <= idx < rev_pairs(entries, dests, n - 1).len() && #[trigger] rev_pairs(
                entries,
                dests,
                n - 1,
            )[idx] == (dests[j], entries[j]);
        assert(rev_pairs(entries, dests, n)[idx] == (dests[j], entries[j]));
    }
}

/// The reversed pairs of a mapping with distinct sources have distinct
/// sources themselves.
proof fn lemma_rev_pairs_sources_distinct(entries: Seq<Seq<u8>>, dests: Seq<Seq<u8>>, n: int)
    requires
        forall|a: int, b: int| 0 <= a < b < n ==> entries[a] != entries[b],
    ensures
        forall|i: int, j: int|
            0 <= i < j < rev_pairs(entries, dests, n).len() ==> (#[trigger] rev_pairs(
                entries,
                dests,
                n,
            )[i]).1 != (#[trigger] rev_pairs(entries, dests, n)[j]).1,
    decreases n,
{
    if n > 0 {
        lemma_rev_pairs_sources_distinct(entries, dests, n - 1);
        let p = rev_pairs(entries, dests, n);
        let pp = rev_pairs(entries, dests, n - 1);
        if entries[n - 1] != dests[n - 1] {
            assert forall|i: int, j: int| 0 <= i < j < p.len() implies (#[trigger] p[i]).1 != (
            #[trigger] p[j]).1 by {
                if j < pp.len() {
                    assert(p[i] == pp[i] && p[j] == pp[j]);
                } else {
                    assert(p[j] == (dests[n - 1], entries[n - 1]));
                    assert(p[i] == pp[i]);
                    lemma_rev_pairs_mem(entries, dests, n - 1, i);
                    let w = choose|w: int|
                        0 <= w < n - 1 && entries[w] != dests[w] && rev_pairs(
                            entries,
                            dests,
                            n - 1,
                        )[i] == (dests[w], entries[w]);
                    assert(entries[w] != entries[n - 1]);
                }
            }
        }
    }
}

/// A plan built from a snapshot with distinct entries partitions its mapping:
/// each non-identity (source, destination) entry occurs as a rename edge
/// exactly once over the plan's chains and cycles, and every edge of the plan
/// is such an entry.
pub proof fn lemma_plan_partitions_mapping(
    chains: Seq<Seq<Seq<u8>>>,
    cycles: Seq<Seq<Seq<u8>>>,
    entries: Seq<Seq<u8>>,
    dests: Seq<Seq<u8>>,
    n: int,
)
    requires
        chains_edges(chains).add(cycles_edges(cycles)) == pairs_edges(
            rev_pairs(entries, dests, n),
        ).to_multiset(),
        forall|a: int, b: int| 0 <= a < b < n ==> entries[a] != entries[b],
    ensures
        forall|i: int|
            0 <= i < rev_pairs(entries, dests, n).len() ==> chains_edges(chains).add(
                cycles_edges(cycles),
            ).count(
                ((#[trigger] rev_pairs(entries, dests, n)[i]).1, rev_pairs(entries, dests, n)[i].0),
            ) == 1,
        forall|e: (Seq<u8>, Seq<u8>)|
            #[trigger] chains_edges(chains).add(cycles_edges(cycles)).count(e) > 0 ==> exists|i: int|
                0 <= i < rev_pairs(entries, dests, n).len() && e == ((#[trigger] rev_pairs(
                    entries,
                    dests,
                    n,
                )[i]).1, rev_pairs(entries, dests, n)[i].0),
{
    lemma_rev_pairs_sources_distinct(entries, dests, n);
    crate::chains::lemma_decomposition_is_partition(chains, cycles, rev_pairs(entries, dests, n));
}

/// Setup of a bulk rename: the target directory and the snapshot of its
/// entries, sorted and free of duplicates.
#[derive(Debug, Clone)]
pub struct RenameSetup {
    /// Path of the directory whose entries are renamed.
    pub source_dir: Vec<u8>,
    /// The snapshot of the directory's entry names.
    pub entries: Vec<Vec<u8>>,
}

impl RenameSetup {
    /// Snapshot invariant: the entries are strictly sorted, so in particular
    /// all distinct.
    pub open spec fn wf(self) -> bool {
        strictly_sorted(dv(self.entries@))
    }

    /// Creates a setup for the given directory from the raw list of its
    /// entries: the entries are sorted, and duplicates (which a real
    /// directory cannot hold anyway) are collapsed.
    pub fn new(source_dir: Vec<u8>, raw_entries: Vec<Vec<u8>>) -> (r: RenameSetup)
        ensures
            r.wf(),
            r.source_dir@ == source_dir@,
            forall|x: Seq<u8>| dv(r.entries@).contains(x) <==> dv(raw_entries@).contains(x),
    {
        let ghost raw = dv(raw_entries@);
        let sorted = sort_names(raw_entries);
        proof {
            assert forall|x: Seq<u8>| dv(sorted@).contains(x) <==> raw.contains(x) by {
                if dv(sorted@).contains(x) {
                    assert(dv(sorted@).to_multiset().count(x) > 0);
                }
                if raw.contains(x) {
                    assert(raw.to_multiset().count(x) > 0);
                }
            }
        }
        let entries = dedup_sorted(sorted);
        RenameSetup { source_dir, entries }
    }

    /// Renders the editable list: each entry escaped into one line, each line
    /// followed by one separator.  Fails with the escape error of the first
    /// entry that the chosen strategy cannot represent.
    pub fn write(&self, escape: Escape, line_sep: LineSeparator) -> (r: Result<
        Vec<u8>,
        RenameError,
    >)
        ensures
            match r {
                Ok(t) => (forall|i: int|
                    0 <= i < self.entries@.len() ==> encoded_name(
                        escape,
                        #[trigger] dv(self.entries@)[i],
                        line_sep,
                    ) is Some) && t@ == rendered(dv(self.entries@), escape, line_sep),
                Err(e) => exists|k: int|
                    0 <= k < self.entries@.len() && encoded_name(
                        escape,
                        #[trigger] dv(self.entries@)[k],
                        line_sep,
                    ) is None && (forall|i: int|
                        0 <= i < k ==> encoded_name(
                            escape,
                            #[trigger] dv(self.entries@)[i],
                            line_sep,
                        ) is Some) && (match e {
                        RenameError::InvalidText { name } => name@ == dv(self.entries@)[k],
                        RenameError::SeparatorInName { name } => name@ == dv(self.entries@)[k],
                        _ => false,
                    }),
            },
    {
        let mut out: Vec<u8> = Vec::new();
        let mut i: usize = 0;
        proof {
            assert(out@ =~= rendered(dv(self.entries@).take(0), escape, line_sep));
        }
        while i < self.entries.len()
            invariant
                i <= self.entries@.len(),
                forall|x: int|
                    0 <= x < i ==> encoded_name(
                        escape,
                        #[trigger] dv(self.entries@)[x],
                        line_sep,
                    ) is Some,
                out@ == rendered(dv(self.entries@).take(i as int), escape, line_sep),
            decreases self.entries@.len() - i,
        {
            let ghost ents = dv(self.entries@);
            match escape.escape(&self.entries[i], line_sep) {
                Ok(mut line) => {
                    out.append(&mut line);
                    out.push(line_sep.to_byte());
                    proof {
                        assert(ents.take(i + 1) =~= ents.take(i as int).push(ents[i as int]));
                        lemma_rendered_snoc(ents.take(i as int), ents[i as int], escape, line_sep);
                    }
                },
                Err(e) => {
                    proof {
                        assert(dv(self.entries@)[i as int] == self.entries@[i as int]@);
                        assert(encoded_name(escape, dv(self.entries@)[i as int], line_sep)
                            is None);
                    }
                    return Err(e);
                },
            }
            i += 1;
        }
        proof {
            assert(dv(self.entries@).take(self.entries@.len() as int) =~= dv(self.entries@));
        }
        Ok(out)
    }

    /// Builds the rename plan from the bytes of the edited list.
    ///
    /// The edited text is split into lines, each line unescaped into a
    /// destination; entries whose destination equals their source are
    /// dropped.  Building fails when the list has fewer lines than the
    /// snapshot has entries, or when two entries claim the same destination
    /// (reporting both sources and the shared destination).  On success the
    /// plan's chains and cycles carry exactly the mapping's rename edges.
    pub fn plan(&self, edited: &Vec<u8>, escape: Escape, line_sep: LineSeparator) -> (r: Result<
        RenamePlan,
        RenameError,
    >)
        ensures
            match r {
                Ok(p) => {
                    let lines = split_lines_spec(edited@, line_sep.spec_byte());
                    let dests = dests_of(escape, lines);
                    let ents = dv(self.entries@);
                    &&& self.entries@.len() <= lines.len()
                    &&& forall|i: int| 0 <= i < ents.len() ==> !dup_at(ents, dests, i)
                    &&& p.source_dir@ == self.source_dir@
                    &&& forall|i: int|
                        0 <= i < p.seq_rename_chains@.len() ==> (#[trigger] p.seq_rename_chains@[i])@.len() >= 2
                    &&& forall|i: int|
                        0 <= i < p.cyclic_rename_chains@.len() ==> (#[trigger] p.cyclic_rename_chains@[i])@.len() >= 2
                    &&& chains_edges(ddv(p.seq_rename_chains@)).add(
                        cycles_edges(ddv(p.cyclic_rename_chains@)),
                    ) == pairs_edges(rev_pairs(ents, dests, ents.len() as int)).to_multiset()
                },
                Err(RenameError::TooFewEntries) => {
                    let lines = split_lines_spec(edited@, line_sep.spec_byte());
                    let dests = dests_of(escape, lines);
                    let ents = dv(self.entries@);
                    &&& lines.len() < ents.len()
                    &&& forall|i: int| 0 <= i < lines.len() ==> !dup_at(ents, dests, i)
                },
                Err(RenameError::DuplicateDestination { first_source, second_source, dest }) => {
                    let lines = split_lines_spec(edited@, line_sep.spec_byte());
                    let dests = dests_of(escape, lines);
                    let ents = dv(self.entries@);
                    exists|k: int|
                        {
                            &&& 0 <= k < ents.len()
                            &&& k < lines.len()
                            &&& #[trigger] dup_at(ents, dests, k)
                            &&& forall|i: int| 0 <= i < k ==> !dup_at(ents, dests, i)
                            &&& second_source@ == ents[k]
                            &&& dest@ == dests[k]
                            &&& exists|j: int|
                                0 <= j < k && ents[j] != dests[j] && dests[j] == dests[k]
                                    && first_source@ == ents[j]
                        }
                },
                Err(_) => false,
            },
    {
        let ghost ents = dv(self.entries@);
        let lines = split_lines(edited, line_sep.to_byte());
        let ghost linesv = split_lines_spec(edited@, line_sep.spec_byte());
        let ghost dests = dests_of(escape, linesv);
        let n = self.entries.len();
        let mut rev: Vec<(Vec<u8>, Vec<u8>)> = Vec::new();
        let mut i: usize = 0;
        proof {
            assert(pv(rev@) =~= rev_pairs(ents, dests, 0));
        }
        while i < n
            invariant
                n == self.entries@.len(),
                ents == dv(self.entries@),
                dv(lines@) == linesv,
                linesv == split_lines_spec(edited@, line_sep.spec_byte()),
                dests == dests_of(escape, linesv),
                i <= n,
                i == 0 || i <= linesv.len(),
                pv(rev@) == rev_pairs(ents, dests, i as int),
                forall|x: int| 0 <= x < i ==> !dup_at(ents, dests, x),
            decreases n - i,
        {
            if i >= lines.len() {
                return Err(RenameError::TooFewEntries);
            }
            let dest = escape.unescape_line(&lines[i]);
            proof {
                assert(dest@ == dests[i as int]);
            }
            if bytes_eq(&self.entries[i], &dest) {
                proof {
                    assert(rev_pairs(ents, dests, i + 1) == rev_pairs(ents, dests, i as int));
                    assert(!dup_at(ents, dests, i as int));
                }
                i += 1;
                continue ;
            }
            let fj = find_dup(&rev, &dest);
            match fj {
                Some(j) => {
                    proof {
                        lemma_rev_pairs_mem(ents, dests, i as int, j as int);
                        assert(dup_at(ents, dests, i as int));
                    }
                    let first_source = clone_bytes(&rev[j].1);
                    let second_source = clone_bytes(&self.entries[i]);
                    return Err(
                        RenameError::DuplicateDestination { first_source, second_source, dest },
                    );
                },
                None => {
                    proof {
                        if dup_at(ents, dests, i as int) {
                            let j = choose|j: int|
                                0 <= j < i && ents[j] != dests[j] && dests[j] == dests[i as int];
                            lemma_rev_pairs_has(ents, dests, i as int, j);
                            let idx = choose|idx: int|
                                0 <= idx < rev_pairs(ents, dests, i as int).len() && rev_pairs(
                                    ents,
                                    dests,
                                    i as int,
                                )[idx] == (dests[j], ents[j]);
                            assert(pv(rev@)[idx].0 == dests[j]);
                            assert(false);
                        }
                    }
                    let source = clone_bytes(&self.entries[i]);
                    let ghost revp = pv(rev@);
                    rev.push((dest, source));
                    proof {
                        assert(pv(rev@) =~= revp.push((dests[i as int], ents[i as int])));
                        assert(pv(rev@) =~= rev_pairs(ents, dests, i + 1));
                    }
                },
            }
            i += 1;
        }
        let ghost revfinal = pv(rev@);
        let (seq_chains, cycles) = decompose(rev);
        let source_dir = clone_bytes(&self.source_dir);
        proof {
            assert(revfinal == rev_pairs(ents, dests, n as int));
        }
        Ok(
            RenamePlan {
                source_dir,
                seq_rename_chains: seq_chains,
                cyclic_rename_chains: cycles,
            },
        )
    }
}

/// The rendered editable list: each entry's escaped line followed by one
/// separator byte.  Meaningful when every entry is encodable.
pub open spec fn rendered(entries: Seq<Seq<u8>>, e: Escape, sep: LineSeparator) -> Seq<u8>
    decreases entries.len(),
{
    if entries.len() == 0 {
        Seq::empty()
    } else {
        rendered(entries.drop_last(), e, sep) + (match encoded_name(e, entries.last(), sep) {
            Some(t) => t,
            None => Seq::empty(),
        }) + seq![sep.spec_byte()]
    }
}

/// Rendering one more entry appends its line.
proof fn lemma_rendered_snoc(entries: Seq<Seq<u8>>, x: Seq<u8>, e: Escape, sep: LineSeparator)
    ensures
        rendered(entries.push(x), e, sep) == rendered(entries, e, sep) + (match encoded_name(
            e,
            x,
            sep,
        ) {
            Some(t) => t,
            None => Seq::<u8>::empty(),
        }) + seq![sep.spec_byte()],
{
    assert(entries.push(x).drop_last() =~= entries);
    assert(entries.push(x).last() == x);
}

/// Finds a pair already keyed by the given destination.
fn find_dup(rev: &Vec<(Vec<u8>, Vec<u8>)>, key: &Vec<u8>) -> (r: Option<usize>)
    ensures
        match r {
            Some(i) => i < rev@.len() && rev@[i as int].0@ == key@,
            None => forall|j: int| 0 <= j < rev@.len() ==> (#[trigger] pv(rev@)[j]).0 != key@,
        },
{
    let mut i: usize = 0;
    while i < rev.len()
        invariant
            i <= rev.len(),
            forall|j: int| 0 <= j < i ==> (#[trigger] pv(rev@)[j]).0 != key@,
        decreases rev.len() - i,
    {
        if bytes_eq(&rev[i].0, key) {
            return Some(i);
        }
        i += 1;
    }
    None
}

} // verus!
