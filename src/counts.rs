//! The ordered count table: each distinct line with its number of
//! occurrences, in the order of first appearance.
use indexmap::IndexMap;
use vstd::prelude::*;
use vstd::pervasive::unreached;

use crate::model::{dedup, lemma_dedup_same_lines, lemma_occurrences_bound, lemma_tally_push, tally};
use crate::table::{entry_keys, table_entries, table_find, table_get, table_insert, table_len, table_new, table_set};
use crate::text::{count_row, lemma_lines_bound, lines_of, NEWLINE, push_count_row, report_text, split_lines, views};

verus! {

/// The counts of a table's entries as natural numbers.
pub open spec fn as_tally(e: Seq<(Seq<u8>, u64)>) -> Seq<(Seq<u8>, nat)> {
    e.map_values(|p: (Seq<u8>, u64)| (p.0, p.1 as nat))
}

/// The tally of `l` as a count report.
pub open spec fn count_report(l: Seq<Seq<u8>>) -> Seq<u8> {
    report_text(tally(l))
}

/// Occurrence counts of the lines read so far, in first-appearance order.
pub struct LineCounts {
    map: IndexMap<Vec<u8>, u64>,
    read: Ghost<Seq<Seq<u8>>>,
}

impl LineCounts {
    /// The lines added so far, in order.
    pub closed spec fn lines(&self) -> Seq<Seq<u8>> {
        self.read@
    }

    /// The table holds the tally of the lines added so far.
    pub closed spec fn wf(&self) -> bool {
        &&& as_tally(table_entries(self.map)) == tally(self.read@)
        &&& entry_keys(table_entries(self.map)) == dedup(self.read@)
        &&& self.read@.len() <= u64::MAX
    }

    /// An empty table.
    pub fn new() -> (r: LineCounts)
        ensures
            r.wf(),
            r.lines() == Seq::<Seq<u8>>::empty(),
    {
        let r = LineCounts { map: table_new(), read: Ghost(Seq::empty()) };
        assert(as_tally(table_entries(r.map)) =~= tally(r.read@));
        assert(entry_keys(table_entries(r.map)) =~= dedup(r.read@));
        r
    }

    /// Counts one more occurrence of `line`: a line seen before has its count
    /// raised by one, a new line is added last with a count of one.
    pub fn add(&mut self, line: Vec<u8>)
        requires
            old(self).wf(),
            old(self).lines().len() < u64::MAX,
        ensures
            final(self).wf(),
            final(self).lines() == old(self).lines().push(line@),
    {
        let ghost p = self.read@;
        let ghost x = line@;
        proof {
            lemma_tally_push(p, x);
            lemma_dedup_same_lines(p);
            lemma_dedup_same_lines(p.push(x));
        }
        match table_find(&self.map, line.as_slice()) {
            Some(i) => {
                let ghost e = table_entries(self.map);
                let ghost d = dedup(p);
                assert(d[i as int] == x);
                assert(d.contains(x));
                assert(p.contains(x));
                proof {
                    d.index_of_first_ensures(x);
                }
                assert(d.index_of(x) == i);
                let c: u64 = match table_get(&self.map, i) {
                    Some(kv) => kv.1,
                    None => unreached(),
                };
                assert(as_tally(e)[i as int] == tally(p)[i as int]);
                proof {
                    lemma_occurrences_bound(p, x);
                }
                table_set(&mut self.map, i, c + 1);
                assert(as_tally(table_entries(self.map)) =~= tally(p.push(x)));
                assert(p.push(x).drop_last() =~= p);
                assert(entry_keys(table_entries(self.map)) =~= dedup(p.push(x)));
            },
            None => {
                let ghost e = table_entries(self.map);
                assert(!p.contains(x));
                table_insert(&mut self.map, line, 1);
                assert(as_tally(table_entries(self.map)) =~= tally(p.push(x)));
                assert(p.push(x).drop_last() =~= p);
                assert(entry_keys(table_entries(self.map)) =~= dedup(p.push(x)));
            },
        }
        self.read = Ghost(p.push(x));
    }

    /// The number of distinct lines.
    pub fn len(&self) -> (r: usize)
        requires
            self.wf(),
        ensures
            r == tally(self.lines()).len(),
    {
        table_len(&self.map)
    }

    /// The line at position `i` in first-appearance order, and its count.
    pub fn entry(&self, i: usize) -> (r: (&Vec<u8>, u64))
        requires
            self.wf(),
            i < tally(self.lines()).len(),
        ensures
            r.0@ == tally(self.lines())[i as int].0,
            r.1 == tally(self.lines())[i as int].1,
    {
        match table_get(&self.map, i) {
            Some(kv) => {
                assert(as_tally(table_entries(self.map))[i as int] == tally(self.lines())[i as int]);
                kv
            },
            None => unreached(),
        }
    }

    /// The count report: for each distinct line in first-appearance order,
    /// its count right-justified in 7 columns, a space, the line and a newline.
    pub fn report(&self) -> (r: Vec<u8>)
        requires
            self.wf(),
        ensures
            r@ == count_report(self.lines()),
    {
        let t = Ghost(tally(self.lines()));
        let n = self.len();
        let mut out: Vec<u8> = Vec::new();
        let mut i: usize = 0;
        assert(t@.take(0) =~= Seq::<(Seq<u8>, nat)>::empty());
        while i < n
            invariant
                self.wf(),
                t@ == tally(self.lines()),
                n == t@.len(),
                i <= n,
                out@ == report_text(t@.take(i as int)),
            decreases n - i,
        {
            let (k, c) = self.entry(i);
            let ghost before = out@;
            push_count_row(&mut out, c, k.as_slice());
            out.push(NEWLINE);
            assert(t@.take(i + 1).drop_last() =~= t@.take(i as int));
            assert(t@.take(i + 1).last() == t@[i as int]);
            assert(report_text(t@.take(i + 1)) == report_text(t@.take(i as int)) + count_row(
                t@[i as int].1,
                t@[i as int].0,
            ).push(NEWLINE));
            assert(out@ =~= before + count_row(c as nat, k@).push(NEWLINE));
            i = i + 1;
        }
        assert(t@.take(n as int) =~= t@);
        out
    }
}

/// The count report of a whole text: each distinct line in first-appearance
/// order, with its number of occurrences.
pub fn count(input: &[u8]) -> (r: Vec<u8>)
    ensures
        r@ == count_report(lines_of(input@)),
{
    let lines = split_lines(input);
    let mut counts = LineCounts::new();
    let mut i: usize = 0;
    proof {
        lemma_lines_bound(input@);
    }
    while i < lines.len()
        invariant
            counts.wf(),
            i <= lines@.len(),
            lines@.len() <= input@.len(),
            views(lines@) == lines_of(input@),
            counts.lines() == views(lines@).take(i as int),
        decreases lines@.len() - i,
    {
        let line = vstd::slice::slice_to_vec(lines[i].as_slice());
        counts.add(line);
        assert(views(lines@).take(i + 1) =~= views(lines@).take(i as int).push(lines@[i as int]@));
        i = i + 1;
    }
    assert(views(lines@).take(i as int) =~= views(lines@));
    counts.report()
}

} // verus!
