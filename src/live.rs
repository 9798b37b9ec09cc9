//! The live count view: the count table is kept up to date as lines arrive,
//! and frames of it are drawn at a bounded rate.
use vstd::prelude::*;

use crate::counts::{count_report, LineCounts};
use crate::model::tally;
use crate::text::{count_field, count_row, format_count, push_count_row};

verus! {

/// The least time between two frames, in nanoseconds (about 30 frames a
/// second).
pub const FRAME_INTERVAL_NANOS: u64 = 33_000_000;

/// One row of a frame: move the cursor to column 0 of `row`, then write `text`.
pub struct RowDraw {
    pub row: u16,
    pub text: Vec<u8>,
}

/// What row `r` of a frame shows for the entry `e`: only the count field when
/// the previous frame already drew that row's line, else the full row.
pub open spec fn frame_row_text(e: (Seq<u8>, nat), count_only: bool) -> Seq<u8> {
    if count_only {
        count_field(e.1)
    } else {
        count_row(e.1, e.0)
    }
}

/// A frame is due once more than the frame interval has passed since the
/// last one.
pub open spec fn frame_due_at(last: u64, now: u64) -> bool {
    now > last && now - last > FRAME_INTERVAL_NANOS
}

/// The number of rows a frame draws: one per entry, as far as the screen
/// height allows.
pub open spec fn rows_shown(entries: nat, height: nat) -> nat {
    if entries < height {
        entries
    } else {
        height
    }
}

/// The interactive count engine: the count table and the render state.
pub struct LiveCount {
    counts: LineCounts,
    last_frame_at: u64,
    rows_last_frame: usize,
}

impl LiveCount {
    /// The lines added so far, in order.
    pub closed spec fn lines(&self) -> Seq<Seq<u8>> {
        self.counts.lines()
    }

    /// When the last frame was drawn (or the engine started), in nanoseconds.
    pub closed spec fn last_frame_at(&self) -> u64 {
        self.last_frame_at
    }

    /// How many rows the last frame drew.
    pub closed spec fn rows_last_frame(&self) -> nat {
        self.rows_last_frame as nat
    }

    /// The count table holds the tally of the lines added so far.
    pub closed spec fn wf(&self) -> bool {
        self.counts.wf()
    }

    /// An engine started at time `now`, with no lines and no frame drawn.
    pub fn new(now: u64) -> (r: LiveCount)
        ensures
            r.wf(),
            r.lines() == Seq::<Seq<u8>>::empty(),
            r.last_frame_at() == now,
            r.rows_last_frame() == 0,
    {
        LiveCount { counts: LineCounts::new(), last_frame_at: now, rows_last_frame: 0 }
    }

    /// Counts one more line; the render state is left as it is.
    pub fn add_line(&mut self, line: Vec<u8>)
        requires
            old(self).wf(),
            old(self).lines().len() < u64::MAX,
        ensures
            final(self).wf(),
            final(self).lines() == old(self).lines().push(line@),
            final(self).last_frame_at() == old(self).last_frame_at(),
            final(self).rows_last_frame() == old(self).rows_last_frame(),
    {
        self.counts.add(line);
    }

    /// Whether a frame is due at time `now`.
    pub fn frame_due(&self, now: u64) -> (r: bool)
        ensures
            r == frame_due_at(self.last_frame_at(), now),
    {
        now > self.last_frame_at && now - self.last_frame_at > FRAME_INTERVAL_NANOS
    }

    /// Draws a frame at time `now` on a screen `height` rows high: the entries
    /// in first-appearance order, one per row from row 0, as many as fit.
    /// Rows that the previous frame drew get only their count rewritten. The
    /// number of rows drawn is recorded for the next frame.
    pub fn render(&mut self, now: u64, height: u16) -> (rows: Vec<RowDraw>)
        requires
            old(self).wf(),
        ensures
            final(self).wf(),
            final(self).lines() == old(self).lines(),
            final(self).last_frame_at() == now,
            final(self).rows_last_frame() == rows@.len(),
            rows@.len() == rows_shown(tally(old(self).lines()).len(), height as nat),
            forall|r: int| 0 <= r < rows@.len() ==> (#[trigger] rows@[r]).row == r,
            forall|r: int|
                0 <= r < rows@.len() ==> (#[trigger] rows@[r]).text@ == frame_row_text(
                    tally(old(self).lines())[r],
                    r < old(self).rows_last_frame(),
                ),
    {
        let ghost t = tally(self.lines());
        let prev = self.rows_last_frame;
        let n = self.counts.len();
        let mut rows: Vec<RowDraw> = Vec::new();
        let mut r: usize = 0;
        while r < n && r < height as usize
            invariant
                self.counts.wf(),
                t == tally(self.counts.lines()),
                n == t.len(),
                r <= n,
                r <= height,
                rows@.len() == r,
                forall|k: int| 0 <= k < r ==> (#[trigger] rows@[k]).row == k,
                forall|k: int|
                    0 <= k < r ==> (#[trigger] rows@[k]).text@ == frame_row_text(t[k], k < prev),
            decreases n - r,
        {
            let (line, c) = self.counts.entry(r);
            let text = if r < prev {
                format_count(c)
            } else {
                let mut v: Vec<u8> = Vec::new();
                push_count_row(&mut v, c, line.as_slice());
                assert(v@ =~= count_row(c as nat, line@));
                v
            };
            assert(text@ == frame_row_text(t[r as int], r < prev));
            let ghost before = rows@;
            rows.push(RowDraw { row: r as u16, text });
            assert(rows@[r as int].row == r);
            assert(rows@ == before.push(rows@[r as int]));
            r = r + 1;
        }
        self.last_frame_at = now;
        self.rows_last_frame = r;
        rows
    }

    /// The final report, the same as the batch count report of the lines read.
    pub fn report(&self) -> (r: Vec<u8>)
        requires
            self.wf(),
        ensures
            r@ == count_report(self.lines()),
    {
        self.counts.report()
    }
}

} // verus!
