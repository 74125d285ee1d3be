//! Byte-string equality, lexicographic ordering, and sorting of filenames.

use vstd::prelude::*;
use vstd::multiset::Multiset;

verus! {

/// The sequence of views of a sequence of byte vectors.
pub open spec fn dv(s: Seq<Vec<u8>>) -> Seq<Seq<u8>> {
    Seq::new(s.len(), |i: int| s[i]@)
}

/// The sequence of chain views of a sequence of chains of byte vectors.
pub open spec fn ddv(s: Seq<Vec<Vec<u8>>>) -> Seq<Seq<Seq<u8>>> {
    Seq::new(s.len(), |i: int| dv(s[i]@))
}

/// Lexicographic order on byte strings: `a` sorts no later than `b`.
pub open spec fn lex_le(a: Seq<u8>, b: Seq<u8>) -> bool
    decreases a.len(),
{
    if a.len() == 0 {
        true
    } else if b.len() == 0 {
        false
    } else if a[0] < b[0] {
        true
    } else if a[0] > b[0] {
        false
    } else {
        lex_le(a.drop_first(), b.drop_first())
    }
}

/// Every pair of positions in `s` is ordered by `lex_le`.
pub open spec fn sorted_le(s: Seq<Seq<u8>>) -> bool {
    forall|i: int, j: int| 0 <= i < j < s.len() ==> lex_le(s[i], s[j])
}

/// Sorted with no two equal entries.
pub open spec fn strictly_sorted(s: Seq<Seq<u8>>) -> bool {
    forall|i: int, j: int|
        0 <= i < j < s.len() ==> lex_le(s[i], s[j]) && s[i] != s[j]
}

/// `lex_le` is total: any two byte strings compare one way or the other.
pub proof fn lemma_lex_le_total(a: Seq<u8>, b: Seq<u8>)
    ensures
        lex_le(a, b) || lex_le(b, a),
    decreases a.len(),
{
    if a.len() > 0 && b.len() > 0 && a[0] == b[0] {
        lemma_lex_le_total(a.drop_first(), b.drop_first());
    }
}

/// `lex_le` both ways means the strings are equal.
pub proof fn lemma_lex_le_antisym(a: Seq<u8>, b: Seq<u8>)
    requires
        lex_le(a, b),
        lex_le(b, a),
    ensures
        a == b,
    decreases a.len(),
{
    if a.len() == 0 {
        assert(b.len() == 0);
        assert(a =~= b);
    } else {
        assert(b.len() > 0);
        assert(a[0] == b[0]);
        lemma_lex_le_antisym(a.drop_first(), b.drop_first());
        assert(a.drop_first().len() == b.drop_first().len());
        assert(a.len() == b.len());
        assert forall|i: int| 0 <= i < a.len() implies a[i] == b[i] by {
            if i > 0 {
                assert(a[i] == a.drop_first()[i - 1]);
                assert(b[i] == b.drop_first()[i - 1]);
            }
        }
        assert(a =~= b);
    }
}

/// `lex_le` is transitive.
pub proof fn lemma_lex_le_trans(a: Seq<u8>, b: Seq<u8>, c: Seq<u8>)
    requires
        lex_le(a, b),
        lex_le(b, c),
    ensures
        lex_le(a, c),
    decreases a.len(),
{
    if a.len() > 0 {
        assert(b.len() > 0);
        assert(c.len() > 0);
        if a[0] == b[0] && b[0] == c[0] {
            lemma_lex_le_trans(a.drop_first(), b.drop_first(), c.drop_first());
        }
    }
}

/// Copies a byte vector; the copy holds the same bytes.
pub fn clone_bytes(v: &Vec<u8>) -> (r: Vec<u8>)
    ensures
        r@ == v@,
{
    let r = v.clone();
    proof {
        assert forall|i: int| 0 <= i < v@.len() implies r@[i] == v@[i] by {
            assert(cloned::<u8>(v@[i], r@[i]));
        }
        assert(r@ =~= v@);
    }
    r
}

/// Exact byte equality of two byte vectors.
pub fn bytes_eq(a: &Vec<u8>, b: &Vec<u8>) -> (r: bool)
    ensures
        r == (a@ == b@),
{
    if a.len() != b.len() {
        return false;
    }
    let mut i: usize = 0;
    while i < a.len()
        invariant
            a.len() == b.len(),
            i <= a.len(),
            forall|j: int| 0 <= j < i ==> a@[j] == b@[j],
        decreases a.len() - i,
    {
        if a[i] != b[i] {
            return false;
        }
        i += 1;
    }
    proof {
        assert(a@ =~= b@);
    }
    true
}

/// Decides `lex_le` on two byte vectors.
pub fn bytes_le(a: &Vec<u8>, b: &Vec<u8>) -> (r: bool)
    ensures
        r == lex_le(a@, b@),
{
    let mut i: usize = 0;
    proof {
        assert(a@.skip(0) =~= a@);
        assert(b@.skip(0) =~= b@);
    }
    while i < a.len() && i < b.len()
        invariant
            i <= a.len(),
            i <= b.len(),
            lex_le(a@, b@) == lex_le(a@.skip(i as int), b@.skip(i as int)),
        decreases a.len() - i,
    {
        if a[i] < b[i] {
            assert(lex_le(a@.skip(i as int), b@.skip(i as int)));
            return true;
        }
        if a[i] > b[i] {
            assert(!lex_le(a@.skip(i as int), b@.skip(i as int)));
            return false;
        }
        proof {
            assert(a@.skip(i as int).drop_first() =~= a@.skip(i + 1));
            assert(b@.skip(i as int).drop_first() =~= b@.skip(i + 1));
        }
        i += 1;
    }
    if i >= a.len() {
        proof {
            assert(a@.skip(i as int).len() == 0);
        }
        true
    } else {
        proof {
            assert(b@.skip(i as int).len() == 0);
            assert(a@.skip(i as int).len() > 0);
        }
        false
    }
}

/// Whether a byte vector holds the byte `b` anywhere.
pub fn contains_byte(v: &Vec<u8>, b: u8) -> (r: bool)
    ensures
        r == v@.contains(b),
{
    let mut i: usize = 0;
    while i < v.len()
        invariant
            i <= v.len(),
            forall|j: int| 0 <= j < i ==> v@[j] != b,
        decreases v.len() - i,
    {
        if v[i] == b {
            return true;
        }
        i += 1;
    }
    proof {
        if v@.contains(b) {
            let j = choose|j: int| 0 <= j < v@.len() && v@[j] == b;
            assert(v@[j] != b);
        }
    }
    false
}

/// The position where `x` can be inserted into the sorted list `out` without
/// disturbing the order.
fn find_insert_pos(out: &Vec<Vec<u8>>, x: &Vec<u8>) -> (p: usize)
    ensures
        p <= out.len(),
        forall|q: int| 0 <= q < p ==> lex_le(dv(out@)[q], x@),
        p < out.len() ==> !lex_le(dv(out@)[p as int], x@),
{
    let mut p: usize = 0;
    while p < out.len()
        invariant
            p <= out.len(),
            forall|q: int| 0 <= q < p ==> lex_le(dv(out@)[q], x@),
        decreases out.len() - p,
    {
        if !bytes_le(&out[p], x) {
            return p;
        }
        p += 1;
    }
    p
}

/// Sorts byte vectors into lexicographic order, keeping the same multiset of
/// entries.
pub fn sort_names(names: Vec<Vec<u8>>) -> (r: Vec<Vec<u8>>)
    ensures
        sorted_le(dv(r@)),
        dv(r@).to_multiset() == dv(names@).to_multiset(),
{
    let ghost orig: Seq<Seq<u8>> = dv(names@);
    let mut rest = names;
    let mut out: Vec<Vec<u8>> = Vec::new();
    proof {
        vstd::seq_lib::lemma_multiset_commutative(dv(out@), dv(rest@));
        assert(dv(out@) + dv(rest@) =~= orig);
    }
    while rest.len() > 0
        invariant
            sorted_le(dv(out@)),
            dv(out@).to_multiset().add(dv(rest@).to_multiset()) == orig.to_multiset(),
        decreases rest.len(),
    {
        let ghost rest0 = dv(rest@);
        let ghost out0 = dv(out@);
        let x = rest.pop().unwrap();
        proof {
            assert(dv(rest@) =~= rest0.drop_last());
            assert(rest0 =~= rest0.drop_last().push(x@));
            rest0.drop_last().to_multiset_ensures();
        }
        let p = find_insert_pos(&out, &x);
        proof {
            if p < out0.len() {
                lemma_lex_le_total(out0[p as int], x@);
                assert(lex_le(x@, out0[p as int]));
            }
        }
        out.insert(p, x);
        proof {
            assert(dv(out@) =~= out0.insert(p as int, x@));
            // Sortedness is preserved by inserting at the found position.
            assert forall|i: int, j: int| 0 <= i < j < dv(out@).len() implies lex_le(
                dv(out@)[i],
                dv(out@)[j],
            ) by {
                let s = dv(out@);
                let pi = p as int;
                if i < pi && j == pi {
                    assert(s[i] == out0[i]);
                    assert(lex_le(out0[i], x@));
                } else if i == pi && j > pi {
                    assert(s[j] == out0[j - 1]);
                    assert(lex_le(x@, out0[pi]));
                    if j - 1 > pi {
                        lemma_lex_le_trans(x@, out0[pi], out0[j - 1]);
                    }
                } else if i < pi && j > pi {
                    assert(s[i] == out0[i] && s[j] == out0[j - 1]);
                } else if j < pi {
                    assert(s[i] == out0[i] && s[j] == out0[j]);
                } else if i > pi {
                    assert(s[i] == out0[i - 1] && s[j] == out0[j - 1]);
                }
            }
            // Multiset bookkeeping: one entry moved from `rest` to `out`.
            lemma_to_multiset_insert(out0, p as int, x@);
            assert(dv(out@).to_multiset() == out0.to_multiset().insert(x@));
            assert(dv(out@).to_multiset().add(dv(rest@).to_multiset()) =~= orig.to_multiset());
        }
    }
    proof {
        assert(dv(rest@).len() == 0);
        assert(dv(rest@) =~= Seq::<Seq<u8>>::empty());
        Seq::<Seq<u8>>::empty().to_multiset_ensures();
        assert(dv(rest@).to_multiset() =~= Multiset::<Seq<u8>>::empty());
        assert(dv(out@).to_multiset() =~= orig.to_multiset());
    }
    out
}

/// Inserting into a sequence inserts into its multiset.
pub proof fn lemma_to_multiset_insert(s: Seq<Seq<u8>>, p: int, x: Seq<u8>)
    requires
        0 <= p <= s.len(),
    ensures
        s.insert(p, x).to_multiset() == s.to_multiset().insert(x),
{
    let left = s.subrange(0, p);
    let right = s.subrange(p, s.len() as int);
    assert(s.insert(p, x) =~= left + (seq![x] + right));
    vstd::seq_lib::lemma_multiset_commutative(left, seq![x] + right);
    vstd::seq_lib::lemma_multiset_commutative(seq![x], right);
    assert(s =~= left + right);
    vstd::seq_lib::lemma_multiset_commutative(left, right);
    assert(seq![x] =~= Seq::<Seq<u8>>::empty().push(x));
    Seq::<Seq<u8>>::empty().to_multiset_ensures();
    assert(seq![x].to_multiset() =~= Multiset::<Seq<u8>>::empty().insert(x));
    assert(s.insert(p, x).to_multiset() =~= s.to_multiset().insert(x));
}

/// Removes adjacent duplicates from a sorted list, leaving a strictly sorted
/// list with the same set of entries.
pub fn dedup_sorted(names: Vec<Vec<u8>>) -> (r: Vec<Vec<u8>>)
    requires
        sorted_le(dv(names@)),
    ensures
        strictly_sorted(dv(r@)),
        forall|x: Seq<u8>| dv(r@).contains(x) <==> dv(names@).contains(x),
{
    let mut out: Vec<Vec<u8>> = Vec::new();
    let mut i: usize = 0;
    while i < names.len()
        invariant
            i <= names.len(),
            sorted_le(dv(names@)),
            strictly_sorted(dv(out@)),
            forall|x: Seq<u8>| dv(out@).contains(x) <==> dv(names@).take(i as int).contains(x),
            i > 0 ==> out.len() > 0 && dv(out@).last() == dv(names@)[i - 1],
            i == 0 ==> out.len() == 0,
        decreases names.len() - i,
    {
        let ghost out0 = dv(out@);
        let ghost ns = dv(names@);
        let keep = if out.len() == 0 {
            true
        } else {
            !bytes_eq(&out[out.len() - 1], &names[i])
        };
        if keep {
            let x = clone_bytes(&names[i]);
            out.push(x);
            proof {
                assert(dv(out@) =~= out0.push(ns[i as int]));
                // Every earlier entry of `out` sorts strictly before the new one.
                assert forall|q: int| 0 <= q < out0.len() implies lex_le(out0[q], ns[i as int])
                    && out0[q] != ns[i as int] by {
                    assert(out0.contains(out0[q]));
                    assert(ns.take(i as int).contains(out0[q]));
                    let j = choose|j: int|
                        0 <= j < ns.take(i as int).len() && ns.take(i as int)[j] == out0[q];
                    assert(ns[j] == out0[q]);
                    assert(lex_le(ns[j], ns[i as int]));
                    if out0[q] == ns[i as int] {
                        // Then the last kept entry would already equal the new
                        // entry, and the entry would not have been kept.
                        assert(i > 0);
                        assert(out0.last() == ns[i - 1]);
                        if q == out0.len() - 1 {
                            assert(out0.last() == ns[i as int]);
                        } else {
                            assert(lex_le(out0[q], out0[out0.len() - 1]));
                            assert(lex_le(ns[i - 1], ns[i as int]));
                            lemma_lex_le_antisym(ns[i as int], ns[i - 1]);
                            assert(out0.last() == ns[i as int]);
                        }
                        assert(false);
                    }
                }
                assert forall|x: Seq<u8>| dv(out@).contains(x) <==> ns.take(i + 1).contains(x) by {
                    assert(ns.take(i + 1) =~= ns.take(i as int).push(ns[i as int]));
                    if dv(out@).contains(x) {
                        let q = choose|q: int| 0 <= q < dv(out@).len() && dv(out@)[q] == x;
                        if q < out0.len() {
                            assert(out0[q] == x);
                            assert(out0.contains(x));
                            assert(ns.take(i as int).contains(x));
                            let j = choose|j: int| 0 <= j < i && ns.take(i as int)[j] == x;
                            assert(ns.take(i + 1)[j] == x);
                        } else {
                            assert(ns.take(i + 1)[i as int] == x);
                        }
                    }
                    if ns.take(i + 1).contains(x) {
                        let j = choose|j: int| 0 <= j <= i && #[trigger] ns.take(i + 1)[j] == x;
                        if j < i {
                            assert(ns.take(i as int)[j] == x);
                            assert(out0.contains(x));
                            let q = choose|q: int| 0 <= q < out0.len() && out0[q] == x;
                            assert(dv(out@)[q] == x);
                        } else {
                            assert(dv(out@).last() == x);
                        }
                    }
                }
            }
        } else {
            proof {
                // The skipped entry already equals the last kept one.
                assert(dv(out@).last() == ns[i as int]);
                assert forall|x: Seq<u8>| dv(out@).contains(x) <==> ns.take(i + 1).contains(x) by {
                    assert(ns.take(i + 1) =~= ns.take(i as int).push(ns[i as int]));
                    if ns.take(i + 1).contains(x) {
                        let j = choose|j: int| 0 <= j <= i && #[trigger] ns.take(i + 1)[j] == x;
                        if j < i {
                            assert(ns.take(i as int)[j] == x);
                        } else {
                            assert(x == ns[i as int]);
                            assert(dv(out@).contains(dv(out@).last()));
                        }
                    }
                    if dv(out@).contains(x) {
                        assert(ns.take(i as int).contains(x));
                        let j = choose|j: int| 0 <= j < i && ns.take(i as int)[j] == x;
                        assert(ns.take(i + 1)[j] == x);
                    }
                }
            }
        }
        i += 1;
    }
    proof {
        assert(dv(names@).take(i as int) =~= dv(names@));
    }
    out
}

} // verus!
