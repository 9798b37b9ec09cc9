//! The mathematical model: lines, their first occurrences and their tallies.
use vstd::multiset::Multiset;
use vstd::prelude::*;

verus! {

/// The lines of `l` that occur for the first time, in the order in which they
/// first occur.
pub open spec fn dedup(l: Seq<Seq<u8>>) -> Seq<Seq<u8>>
    decreases l.len(),
{
    if l.len() == 0 {
        Seq::empty()
    } else if l.drop_last().contains(l.last()) {
        dedup(l.drop_last())
    } else {
        dedup(l.drop_last()).push(l.last())
    }
}

/// Position `i` of `l` holds a line that no earlier position holds.
pub open spec fn is_first(l: Seq<Seq<u8>>, i: int) -> bool {
    0 <= i < l.len() && forall|j: int| 0 <= j < i ==> l[j] != l[i]
}

/// How many times `x` occurs in `l`.
pub open spec fn occurrences(l: Seq<Seq<u8>>, x: Seq<u8>) -> nat
    decreases l.len(),
{
    if l.len() == 0 {
        0
    } else if l.last() == x {
        occurrences(l.drop_last(), x) + 1
    } else {
        occurrences(l.drop_last(), x)
    }
}

/// Each distinct line of `l` with its number of occurrences, in the order of
/// first appearance.
pub open spec fn tally(l: Seq<Seq<u8>>) -> Seq<(Seq<u8>, nat)> {
    dedup(l).map_values(|x: Seq<u8>| (x, occurrences(l, x)))
}

/// The sum of the counts of a tally.
pub open spec fn total(t: Seq<(Seq<u8>, nat)>) -> nat
    decreases t.len(),
{
    if t.len() == 0 {
        0
    } else {
        total(t.drop_last()) + t.last().1
    }
}

/// `dedup(l)` holds exactly the lines of `l`, each once.
pub proof fn lemma_dedup_same_lines(l: Seq<Seq<u8>>)
    ensures
        dedup(l).no_duplicates(),
        forall|x: Seq<u8>| dedup(l).contains(x) <==> l.contains(x),
        dedup(l).to_set() == l.to_set(),
    decreases l.len(),
{
    if l.len() > 0 {
        let p = l.drop_last();
        lemma_dedup_same_lines(p);
        assert forall|x: Seq<u8>| l.contains(x) <==> (p.contains(x) || x == l.last()) by {
            if l.contains(x) {
                let i = choose|i: int| 0 <= i < l.len() && l[i] == x;
                if i < l.len() - 1 {
                    assert(p[i] == x);
                }
            }
            if p.contains(x) {
                let i = choose|i: int| 0 <= i < p.len() && p[i] == x;
                assert(l[i] == x);
            }
            if x == l.last() {
                assert(l[l.len() - 1] == x);
            }
        }
        if !p.contains(l.last()) {
            let d = dedup(p);
            assert forall|x: Seq<u8>| d.push(l.last()).contains(x) <==> (d.contains(x) || x == l.last()) by {
                if d.push(l.last()).contains(x) {
                    let i = choose|i: int| 0 <= i < d.len() + 1 && d.push(l.last())[i] == x;
                    if i < d.len() {
                        assert(d[i] == x);
                    }
                }
                if d.contains(x) {
                    let i = choose|i: int| 0 <= i < d.len() && d[i] == x;
                    assert(d.push(l.last())[i] == x);
                }
                if x == l.last() {
                    assert(d.push(l.last())[d.len() as int] == x);
                }
            }
        }
    }
    assert(dedup(l).to_set() =~= l.to_set());
}

/// Keeping the first occurrences of a sequence without repeated lines changes
/// nothing.
pub proof fn lemma_dedup_of_distinct(l: Seq<Seq<u8>>)
    requires
        l.no_duplicates(),
    ensures
        dedup(l) == l,
    decreases l.len(),
{
    if l.len() > 0 {
        let p = l.drop_last();
        assert(p.no_duplicates());
        lemma_dedup_of_distinct(p);
        if p.contains(l.last()) {
            let i = choose|i: int| 0 <= i < p.len() && p[i] == l.last();
            assert(l[i] == l[l.len() - 1]);
        }
        assert(p.push(l.last()) =~= l);
    }
}

/// Deduplication is idempotent.
pub proof fn lemma_dedup_idempotent(l: Seq<Seq<u8>>)
    ensures
        dedup(dedup(l)) == dedup(l),
{
    lemma_dedup_same_lines(l);
    lemma_dedup_of_distinct(dedup(l));
}

/// `dedup(l)` is the subsequence of `l` made of the positions that hold a
/// line for the first time: `pos` lists those positions in increasing order.
pub proof fn lemma_dedup_keeps_first_occurrences(l: Seq<Seq<u8>>) -> (pos: Seq<int>)
    ensures
        pos.len() == dedup(l).len(),
        forall|k: int| 0 <= k < pos.len() ==> is_first(l, #[trigger] pos[k]),
        forall|k: int| 0 <= k < pos.len() ==> dedup(l)[k] == l[#[trigger] pos[k]],
        forall|k1: int, k2: int| 0 <= k1 < k2 < pos.len() ==> pos[k1] < pos[k2],
        forall|i: int| #[trigger] is_first(l, i) ==> pos.contains(i),
    decreases l.len(),
{
    if l.len() == 0 {
        Seq::empty()
    } else {
        let p = l.drop_last();
        let n = l.len() - 1;
        let q = lemma_dedup_keeps_first_occurrences(p);
        assert forall|i: int| 0 <= i < n implies is_first(l, i) == is_first(p, i) by {
            assert forall|j: int| 0 <= j < i implies l[j] == p[j] by {}
        }
        if p.contains(l.last()) {
            let w = choose|w: int| 0 <= w < p.len() && p[w] == l.last();
            assert(l[w] == l[n]);
            assert(!is_first(l, n));
            q
        } else {
            assert forall|j: int| 0 <= j < n implies l[j] != l[n] by {
                assert(p[j] == l[j]);
            }
            let r = q.push(n);
            assert forall|i: int| #[trigger] is_first(l, i) implies r.contains(i) by {
                if i < n {
                    assert(is_first(p, i));
                    let k = choose|k: int| 0 <= k < q.len() && q[k] == i;
                    assert(r[k] == i);
                } else {
                    assert(r[q.len() as int] == i);
                }
            }
            r
        }
    }
}

/// A line that does not occur has no occurrences.
pub proof fn lemma_occurrences_absent(l: Seq<Seq<u8>>, x: Seq<u8>)
    requires
        !l.contains(x),
    ensures
        occurrences(l, x) == 0,
    decreases l.len(),
{
    if l.len() > 0 {
        let p = l.drop_last();
        assert(l[l.len() - 1] == l.last());
        assert forall|i: int| 0 <= i < p.len() implies p[i] != x by {
            assert(l[i] == p[i]);
        }
        lemma_occurrences_absent(p, x);
    }
}

/// The position of `x` in a sequence without repeated lines that holds it.
pub proof fn lemma_unique_position(d: Seq<Seq<u8>>, x: Seq<u8>) -> (i: int)
    requires
        d.no_duplicates(),
        d.contains(x),
    ensures
        0 <= i < d.len(),
        d[i] == x,
        forall|j: int| 0 <= j < d.len() && j != i ==> d[j] != x,
{
    choose|i: int| 0 <= i < d.len() && d[i] == x
}

/// How the tally changes when one more line `x` is read after `p`: a line seen
/// before has its count raised by one at its own place; a new line comes last
/// with a count of one.
pub proof fn lemma_tally_push(p: Seq<Seq<u8>>, x: Seq<u8>)
    ensures
        p.contains(x) ==> {
            let i = dedup(p).index_of(x);
            &&& 0 <= i < tally(p).len()
            &&& tally(p)[i].0 == x
            &&& tally(p.push(x)) == tally(p).update(i, (x, tally(p)[i].1 + 1))
        },
        !p.contains(x) ==> tally(p.push(x)) == tally(p).push((x, 1nat)),
{
    let l = p.push(x);
    assert(l.drop_last() =~= p);
    assert(l.last() == x);
    lemma_dedup_same_lines(p);
    let d = dedup(p);
    if p.contains(x) {
        let i = lemma_unique_position(d, x);
        d.index_of_first_ensures(x);
        assert(d.index_of(x) == i);
        assert forall|k: int| 0 <= k < d.len() implies occurrences(l, #[trigger] d[k]) == (
        if k == i {
            occurrences(p, d[k]) + 1
        } else {
            occurrences(p, d[k])
        }) by {}
        assert(tally(l) =~= tally(p).update(i, (x, tally(p)[i].1 + 1)));
    } else {
        lemma_occurrences_absent(p, x);
        assert forall|k: int| 0 <= k < d.len() implies occurrences(l, #[trigger] d[k]) == occurrences(
            p,
            d[k],
        ) by {
            assert(d.contains(d[k]));
        }
        assert(tally(l) =~= tally(p).push((x, 1nat)));
    }
}

/// Raising one count by one raises the total by one.
pub proof fn lemma_total_update(t: Seq<(Seq<u8>, nat)>, i: int, x: Seq<u8>)
    requires
        0 <= i < t.len(),
    ensures
        total(t.update(i, (x, t[i].1 + 1))) == total(t) + 1,
    decreases t.len(),
{
    let u = t.update(i, (x, t[i].1 + 1));
    if i < t.len() - 1 {
        assert(u.drop_last() =~= t.drop_last().update(i, (x, t[i].1 + 1)));
        lemma_total_update(t.drop_last(), i, x);
    } else {
        assert(u.drop_last() =~= t.drop_last());
    }
}

/// The counts of a tally add up to the number of lines read.
pub proof fn lemma_tally_total(l: Seq<Seq<u8>>)
    ensures
        total(tally(l)) == l.len(),
    decreases l.len(),
{
    if l.len() == 0 {
        assert(tally(l) =~= Seq::<(Seq<u8>, nat)>::empty());
    } else {
        let p = l.drop_last();
        assert(p.push(l.last()) =~= l);
        lemma_tally_total(p);
        lemma_tally_push(p, l.last());
        if p.contains(l.last()) {
            lemma_total_update(tally(p), dedup(p).index_of(l.last()), l.last());
        } else {
            assert(tally(p).push((l.last(), 1nat)).drop_last() =~= tally(p));
        }
    }
}

/// A line occurs at most as many times as there are lines.
pub proof fn lemma_occurrences_bound(l: Seq<Seq<u8>>, x: Seq<u8>)
    ensures
        occurrences(l, x) <= l.len(),
    decreases l.len(),
{
    if l.len() > 0 {
        lemma_occurrences_bound(l.drop_last(), x);
    }
}

/// The number of occurrences is the multiplicity in the multiset of lines.
pub proof fn lemma_occurrences_multiset(l: Seq<Seq<u8>>, x: Seq<u8>)
    ensures
        occurrences(l, x) == l.to_multiset().count(x),
    decreases l.len(),
{
    broadcast use vstd::seq_lib::group_seq_properties;
    if l.len() == 0 {
        assert(l.to_multiset() =~= Multiset::empty());
    } else {
        let p = l.drop_last();
        lemma_occurrences_multiset(p, x);
        assert(p.push(l.last()) =~= l);
        assert(l.to_multiset() =~= p.to_multiset().insert(l.last()));
    }
}

/// The tally pairs each distinct line of `l`, in first-appearance order, with
/// its multiplicity in `l`; every line of `l` has exactly one entry.
pub proof fn lemma_tally_entries(l: Seq<Seq<u8>>)
    ensures
        tally(l).len() == dedup(l).len(),
        forall|k: int|
            0 <= k < tally(l).len() ==> (#[trigger] tally(l)[k]).0 == dedup(l)[k] && tally(l)[k].1
                == l.to_multiset().count(dedup(l)[k]),
        forall|k1: int, k2: int|
            0 <= k1 < k2 < tally(l).len() ==> tally(l)[k1].0 != tally(l)[k2].0,
        forall|x: Seq<u8>|
            l.contains(x) <==> exists|k: int| 0 <= k < tally(l).len() && #[trigger] tally(l)[k].0 == x,
{
    lemma_dedup_same_lines(l);
    let d = dedup(l);
    assert forall|k: int| 0 <= k < tally(l).len() implies (#[trigger] tally(l)[k]).0 == d[k]
        && tally(l)[k].1 == l.to_multiset().count(d[k]) by {
        lemma_occurrences_multiset(l, d[k]);
    }
    assert forall|x: Seq<u8>| l.contains(x) implies exists|k: int|
        0 <= k < tally(l).len() && #[trigger] tally(l)[k].0 == x by {
        assert(d.contains(x));
        let k = choose|k: int| 0 <= k < d.len() && d[k] == x;
        assert(tally(l)[k].0 == x);
    }
    assert forall|x: Seq<u8>|
        (exists|k: int| 0 <= k < tally(l).len() && #[trigger] tally(l)[k].0 == x) implies l.contains(
        x,
    ) by {
        let k = choose|k: int| 0 <= k < tally(l).len() && #[trigger] tally(l)[k].0 == x;
        assert(d[k] == x);
    }
}

} // verus!
