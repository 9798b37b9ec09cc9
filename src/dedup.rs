//! The streaming dedup engine: each line is written when it first appears.
use indexmap::IndexMap;
use vstd::prelude::*;

use crate::model::{dedup, lemma_dedup_same_lines};
use crate::table::{entry_keys, table_entries, table_find, table_insert, table_new};
use crate::text::{join_lines, lines_of, split_lines, views, NEWLINE};

verus! {

/// The output of dedup mode for the lines `l`: each first occurrence,
/// followed by a newline.
pub open spec fn dedup_output(l: Seq<Seq<u8>>) -> Seq<u8> {
    join_lines(dedup(l))
}

/// The set of lines seen so far.
pub struct Dedup {
    seen: IndexMap<Vec<u8>, u64>,
    read: Ghost<Seq<Seq<u8>>>,
}

impl Dedup {
    /// The lines fed so far, in order.
    pub closed spec fn lines(&self) -> Seq<Seq<u8>> {
        self.read@
    }

    /// The set holds each distinct line fed so far, in first-appearance order.
    pub closed spec fn wf(&self) -> bool {
        entry_keys(table_entries(self.seen)) == dedup(self.read@)
    }

    /// An engine that has seen nothing.
    pub fn new() -> (r: Dedup)
        ensures
            r.wf(),
            r.lines() == Seq::<Seq<u8>>::empty(),
    {
        let r = Dedup { seen: table_new(), read: Ghost(Seq::empty()) };
        assert(entry_keys(table_entries(r.seen)) =~= dedup(r.read@));
        r
    }

    /// Takes the next line and returns what to write for it: the line and a
    /// newline when it is new, nothing when it was seen before. What has been
    /// returned so far is always the dedup output of the lines fed so far.
    pub fn feed(&mut self, line: Vec<u8>) -> (r: Option<Vec<u8>>)
        requires
            old(self).wf(),
        ensures
            final(self).wf(),
            final(self).lines() == old(self).lines().push(line@),
            r.is_some() == !old(self).lines().contains(line@),
            r matches Some(v) ==> v@ == line@.push(NEWLINE),
            dedup_output(final(self).lines()) == dedup_output(old(self).lines()) + match r {
                Some(v) => v@,
                None => Seq::empty(),
            },
    {
        let ghost p = self.read@;
        let ghost x = line@;
        let ghost l = p.push(x);
        assert(l.drop_last() =~= p);
        assert(l.last() == x);
        proof {
            lemma_dedup_same_lines(p);
        }
        match table_find(&self.seen, line.as_slice()) {
            Some(i) => {
                assert(dedup(p)[i as int] == x);
                assert(dedup(p).contains(x));
                self.read = Ghost(l);
                assert(dedup_output(l) =~= dedup_output(p) + Seq::<u8>::empty());
                None
            },
            None => {
                let mut out = vstd::slice::slice_to_vec(line.as_slice());
                out.push(NEWLINE);
                table_insert(&mut self.seen, line, 1);
                assert(entry_keys(table_entries(self.seen)) =~= dedup(l));
                self.read = Ghost(l);
                assert(dedup(l).drop_last() =~= dedup(p));
                Some(out)
            },
        }
    }
}

/// The dedup output of a whole text: each distinct line once, in the order of
/// its first appearance, followed by a newline.
pub fn program(input: &[u8]) -> (r: Vec<u8>)
    ensures
        r@ == dedup_output(lines_of(input@)),
{
    let lines = split_lines(input);
    let mut engine = Dedup::new();
    let mut out: Vec<u8> = Vec::new();
    let mut i: usize = 0;
    assert(join_lines(dedup(Seq::empty())) =~= Seq::<u8>::empty());
    while i < lines.len()
        invariant
            engine.wf(),
            i <= lines@.len(),
            views(lines@) == lines_of(input@),
            engine.lines() == views(lines@).take(i as int),
            out@ == dedup_output(engine.lines()),
        decreases lines@.len() - i,
    {
        let line = vstd::slice::slice_to_vec(lines[i].as_slice());
        let written = engine.feed(line);
        match written {
            Some(v) => {
                let mut v = v;
                out.append(&mut v);
            },
            None => {
                assert(out@ =~= out@ + Seq::<u8>::empty());
            },
        }
        assert(views(lines@).take(i + 1) =~= views(lines@).take(i as int).push(lines@[i as int]@));
        i = i + 1;
    }
    assert(views(lines@).take(i as int) =~= views(lines@));
    out
}

} // verus!
