//! Byte-level text: splitting input into lines and laying out output lines.
use vstd::prelude::*;

verus! {

/// The newline byte.
pub const NEWLINE: u8 = 10;

/// The space byte.
pub const SPACE: u8 = 32;

/// The width of the right-justified count column.
pub const COUNT_WIDTH: usize = 7;

/// The lines of `t` from position `i` on, where the line in progress began at
/// `start`: every newline ends a line, and a last line without a newline
/// still counts.
pub open spec fn split_from(t: Seq<u8>, start: int, i: int) -> Seq<Seq<u8>>
    decreases t.len() - i,
{
    if i >= t.len() {
        if start < t.len() {
            seq![t.subrange(start, t.len() as int)]
        } else {
            Seq::empty()
        }
    } else if t[i] == NEWLINE {
        seq![t.subrange(start, i)] + split_from(t, i + 1, i + 1)
    } else {
        split_from(t, start, i + 1)
    }
}

/// The lines of a text, each without its terminating newline.
pub open spec fn lines_of(t: Seq<u8>) -> Seq<Seq<u8>> {
    split_from(t, 0, 0)
}

/// The views of a sequence of byte vectors.
pub open spec fn views(v: Seq<Vec<u8>>) -> Seq<Seq<u8>> {
    v.map_values(|b: Vec<u8>| b@)
}

/// Each line followed by a newline, one after the other.
pub open spec fn join_lines(s: Seq<Seq<u8>>) -> Seq<u8>
    decreases s.len(),
{
    if s.len() == 0 {
        Seq::empty()
    } else {
        join_lines(s.drop_last()) + s.last().push(NEWLINE)
    }
}

/// The decimal digits of `n`, most significant first, as ASCII bytes.
pub open spec fn digits(n: nat) -> Seq<u8>
    decreases n,
{
    if n < 10 {
        seq![(48 + n) as u8]
    } else {
        digits(n / 10).push((48 + n % 10) as u8)
    }
}

/// `k` spaces.
pub open spec fn spaces(k: nat) -> Seq<u8> {
    Seq::new(k, |_i: int| SPACE)
}

/// The decimal form of `n`, right-justified with spaces in a field of width 7.
pub open spec fn count_field(n: nat) -> Seq<u8> {
    let d = digits(n);
    if d.len() < COUNT_WIDTH {
        spaces((COUNT_WIDTH - d.len()) as nat) + d
    } else {
        d
    }
}

/// One row of a count report, without its newline: the count field, a space
/// and the line.
pub open spec fn count_row(n: nat, line: Seq<u8>) -> Seq<u8> {
    count_field(n) + seq![SPACE] + line
}

/// A count report: one row per entry, each ended by a newline.
pub open spec fn report_text(t: Seq<(Seq<u8>, nat)>) -> Seq<u8>
    decreases t.len(),
{
    if t.len() == 0 {
        Seq::empty()
    } else {
        report_text(t.drop_last()) + count_row(t.last().1, t.last().0).push(NEWLINE)
    }
}

/// A text has no more lines than bytes.
pub proof fn lemma_lines_bound(t: Seq<u8>)
    ensures
        lines_of(t).len() <= t.len(),
{
    lemma_split_from_bound(t, 0, 0);
}

proof fn lemma_split_from_bound(t: Seq<u8>, start: int, i: int)
    requires
        0 <= start <= i <= t.len(),
    ensures
        split_from(t, start, i).len() <= t.len() - start,
    decreases t.len() - i,
{
    if i < t.len() {
        if t[i] == NEWLINE {
            lemma_split_from_bound(t, i + 1, i + 1);
        } else {
            lemma_split_from_bound(t, start, i + 1);
        }
    }
}

/// Ten to the power `k`.
pub open spec fn pow10(k: nat) -> nat
    decreases k,
{
    if k == 0 {
        1
    } else {
        10 * pow10((k - 1) as nat)
    }
}

/// The decimal form of a number is made of ASCII digits, at least one.
pub proof fn lemma_digits_are_digits(n: nat)
    ensures
        digits(n).len() >= 1,
        forall|i: int| 0 <= i < digits(n).len() ==> 48 <= #[trigger] digits(n)[i] <= 57,
    decreases n,
{
    if n >= 10 {
        lemma_digits_are_digits(n / 10);
    }
}

/// A number below `10^k` has at most `k` digits.
pub proof fn lemma_digits_len(n: nat, k: nat)
    requires
        1 <= k,
        n < pow10(k),
    ensures
        digits(n).len() <= k,
    decreases n,
{
    if n >= 10 {
        if k == 1 {
            assert(pow10(1) == 10 * pow10(0));
        } else {
            let m = pow10((k - 1) as nat);
            assert(pow10(k) == 10 * m);
            assert(n / 10 < m) by (nonlinear_arith)
                requires
                    n < 10 * m,
            ;
            lemma_digits_len(n / 10, (k - 1) as nat);
        }
    }
}

/// Every row of a count report is a run of spaces, the count's decimal
/// digits, one space and the line; below `10^7` the part before the line is
/// exactly 8 bytes wide.
pub proof fn lemma_count_row_format(n: nat, line: Seq<u8>)
    ensures
        digits(n).len() >= 1,
        forall|i: int| 0 <= i < digits(n).len() ==> 48 <= #[trigger] digits(n)[i] <= 57,
        count_field(n) == spaces((count_field(n).len() - digits(n).len()) as nat) + digits(n),
        count_row(n, line) == count_field(n) + seq![SPACE] + line,
        n < pow10(7) ==> count_field(n).len() == COUNT_WIDTH,
        n < pow10(7) ==> count_row(n, line).len() == COUNT_WIDTH + 1 + line.len(),
{
    lemma_digits_are_digits(n);
    let d = digits(n);
    if d.len() >= COUNT_WIDTH {
        assert(spaces(0) + d =~= d);
    }
    if n < pow10(7) {
        lemma_digits_len(n, 7);
    }
}

/// Splits a text into its lines: each newline ends a line and is dropped; a
/// last line without a newline is kept; an empty text has no lines.
pub fn split_lines(text: &[u8]) -> (r: Vec<Vec<u8>>)
    ensures
        views(r@) == lines_of(text@),
{
    let mut r: Vec<Vec<u8>> = Vec::new();
    let mut cur: Vec<u8> = Vec::new();
    let ghost mut start: int = 0;
    let mut i: usize = 0;
    while i < text.len()
        invariant
            0 <= start <= i <= text@.len(),
            cur@ == text@.subrange(start, i as int),
            views(r@) + split_from(text@, start, i as int) == lines_of(text@),
        decreases text@.len() - i,
    {
        let b = text[i];
        if b == NEWLINE {
            let ghost before = views(r@);
            let line = cur;
            cur = Vec::new();
            r.push(line);
            assert(views(r@) =~= before.push(text@.subrange(start, i as int)));
            assert(views(r@) + split_from(text@, i + 1, i + 1) =~= before + (seq![
                text@.subrange(start, i as int),
            ] + split_from(text@, i + 1, i + 1)));
            proof {
                start = i + 1;
            }
        } else {
            cur.push(b);
            assert(cur@ =~= text@.subrange(start, i + 1));
        }
        i = i + 1;
    }
    if cur.len() > 0 {
        let ghost before = views(r@);
        r.push(cur);
        assert(views(r@) =~= before.push(text@.subrange(start, text@.len() as int)));
        assert(views(r@) =~= before + split_from(text@, start, i as int));
    } else {
        assert(views(r@) =~= views(r@) + split_from(text@, start, i as int));
    }
    r
}

/// The line that a chunk read up to and including a newline stands for: the
/// chunk without its last byte when that is a newline, else the chunk itself.
pub fn line_of_chunk(chunk: Vec<u8>) -> (r: Vec<u8>)
    ensures
        r@ == (if chunk@.len() > 0 && chunk@.last() == NEWLINE {
            chunk@.drop_last()
        } else {
            chunk@
        }),
{
    let mut c = chunk;
    if c.len() > 0 && c[c.len() - 1] == NEWLINE {
        c.pop();
    }
    c
}

/// Appends the decimal digits of `n` to `out`.
fn push_digits(out: &mut Vec<u8>, n: u64)
    ensures
        final(out)@ == old(out)@ + digits(n as nat),
    decreases n,
{
    if n >= 10 {
        push_digits(out, n / 10);
    }
    let d: u8 = (48 + n % 10) as u8;
    out.push(d);
    assert(final(out)@ =~= old(out)@ + digits(n as nat));
}

/// The count field of `n`: its decimal form right-justified with spaces in a
/// field of width 7 (wider when the number has more than 7 digits).
pub fn format_count(n: u64) -> (r: Vec<u8>)
    ensures
        r@ == count_field(n as nat),
{
    let mut d: Vec<u8> = Vec::new();
    push_digits(&mut d, n);
    assert(d@ =~= digits(n as nat));
    if d.len() < COUNT_WIDTH {
        let pad: usize = COUNT_WIDTH - d.len();
        let mut r: Vec<u8> = Vec::new();
        let mut k: usize = 0;
        while k < pad
            invariant
                k <= pad,
                r@ == spaces(k as nat),
            decreases pad - k,
        {
            r.push(SPACE);
            k = k + 1;
            assert(r@ =~= spaces(k as nat));
        }
        r.append(&mut d);
        r
    } else {
        d
    }
}

/// Appends `count_row(n, line)` to `out`.
pub fn push_count_row(out: &mut Vec<u8>, n: u64, line: &[u8])
    ensures
        final(out)@ == old(out)@ + count_row(n as nat, line@),
{
    let mut f = format_count(n);
    out.append(&mut f);
    out.push(SPACE);
    let mut j: usize = 0;
    let ghost mid = out@;
    while j < line.len()
        invariant
            j <= line@.len(),
            out@ == mid + line@.subrange(0, j as int),
        decreases line@.len() - j,
    {
        out.push(line[j]);
        j = j + 1;
        assert(out@ =~= mid + line@.subrange(0, j as int));
    }
    assert(line@.subrange(0, j as int) =~= line@);
    assert(final(out)@ =~= old(out)@ + count_row(n as nat, line@));
}

} // verus!
