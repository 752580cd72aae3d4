//! Lines of the append-only JSONL logs, as read: blank, unparseable, or a
//! parsed record.
use vstd::prelude::*;

verus! {

/// One line of a JSONL log as read: blank, unparseable, or a parsed record.
#[derive(Debug)]
pub enum LogLine<T> {
    Blank,
    Malformed,
    Record(T),
}

/// The records of the log, in order.
pub open spec fn records_of<T>(lines: Seq<LogLine<T>>) -> Seq<T>
    decreases lines.len(),
{
    if lines.len() == 0 {
        Seq::empty()
    } else {
        match lines.last() {
            LogLine::Record(r) => records_of(lines.drop_last()).push(r),
            _ => records_of(lines.drop_last()),
        }
    }
}

/// Number of unparseable lines.
pub open spec fn malformed_count<T>(lines: Seq<LogLine<T>>) -> nat
    decreases lines.len(),
{
    if lines.len() == 0 {
        0
    } else {
        match lines.last() {
            LogLine::Malformed => malformed_count(lines.drop_last()) + 1,
            _ => malformed_count(lines.drop_last()),
        }
    }
}

pub proof fn lemma_log_counts<T>(lines: Seq<LogLine<T>>)
    ensures
        records_of(lines).len() + malformed_count(lines) <= lines.len(),
    decreases lines.len(),
{
    if lines.len() > 0 {
        lemma_log_counts(lines.drop_last());
    }
}

pub proof fn lemma_records_step<T>(lines: Seq<LogLine<T>>, i: int)
    requires
        0 <= i < lines.len(),
    ensures
        records_of(lines.take(i + 1)) == match lines[i] {
            LogLine::Record(r) => records_of(lines.take(i)).push(r),
            _ => records_of(lines.take(i)),
        },
        malformed_count(lines.take(i + 1)) == match lines[i] {
            LogLine::Malformed => malformed_count(lines.take(i)) + 1,
            _ => malformed_count(lines.take(i)),
        },
{
    assert(lines.take(i + 1).drop_last() =~= lines.take(i));
}

/// The records of the lines, in order.
pub fn log_records<T>(lines: Vec<LogLine<T>>) -> (r: Vec<T>)
    ensures
        r@ == records_of(lines@),
{
    let ghost all = lines@;
    let mut rest = lines;
    let mut out: Vec<T> = Vec::new();
    let ghost mut k: int = 0;
    assert(all.take(0) =~= Seq::<LogLine<T>>::empty());
    assert(all.skip(0) =~= all);
    while rest.len() > 0
        invariant
            0 <= k <= all.len(),
            rest@ == all.skip(k),
            out@ == records_of(all.take(k)),
        decreases rest@.len(),
    {
        proof {
            lemma_records_step(all, k);
        }
        let line = rest.remove(0);
        assert(line == all[k]);
        match line {
            LogLine::Record(r) => out.push(r),
            _ => {},
        }
        proof {
            k = k + 1;
        }
        assert(rest@ =~= all.skip(k));
    }
    assert(all.take(all.len() as int) =~= all);
    out
}

} // verus!
