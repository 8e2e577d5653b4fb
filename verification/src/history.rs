//! The execution history: an append-only log of runs, deduplicated by
//! (pattern, subject) pair, rendered most-recent-first.

use vstd::prelude::*;
use vstd::string::StringExecFns;
use crate::digits::{dec_chars, u64_dec};
use crate::evaluator::quoted;

verus! {

/// One logged run: the time of its most recent execution, the operation
/// last performed, the pattern, the subject, and how often this exact
/// (pattern, subject) pair has been run.
#[derive(Clone, Debug, PartialEq, Eq)]
pub struct Execution {
    pub time: String,
    pub operation: String,
    pub pattern: String,
    pub string: String,
    pub count: u32,
}

/// The mathematical value of an execution record.
pub ghost struct ExecutionV {
    pub time: Seq<char>,
    pub operation: Seq<char>,
    pub pattern: Seq<char>,
    pub string: Seq<char>,
    pub count: u32,
}

impl View for Execution {
    type V = ExecutionV;

    open spec fn view(&self) -> ExecutionV {
        ExecutionV {
            time: self.time@,
            operation: self.operation@,
            pattern: self.pattern@,
            string: self.string@,
            count: self.count,
        }
    }
}

impl DeepView for Execution {
    type V = ExecutionV;

    open spec fn deep_view(&self) -> ExecutionV {
        self@
    }
}

/// Relies on `chrono::Local::now` and `chrono::DateTime::to_rfc3339` for
/// the current local time as RFC 3339 text; nothing is assumed of the
/// result.
#[verifier::external_body]
fn local_now_rfc3339() -> String {
    chrono::Local::now().to_rfc3339()
}

/// The rendering of one record: count, timestamp, operation, pattern and
/// subject.
pub open spec fn exec_line(e: ExecutionV) -> Seq<char> {
    dec_chars(e.count as nat) + ": "@ + e.time + " Op: "@ + quoted(e.operation) + " RE: "@
        + quoted(e.pattern) + " str: "@ + quoted(e.string)
}

impl Execution {
    /// A fresh record for one run, stamped with the current local time.
    pub fn new(o: &str, p: &str, s: &str) -> (r: Execution)
        ensures
            r@.operation == o@,
            r@.pattern == p@,
            r@.string == s@,
            r@.count == 0,
    {
        Execution {
            time: local_now_rfc3339(),
            operation: o.to_owned(),
            pattern: p.to_owned(),
            string: s.to_owned(),
            count: 0,
        }
    }

    /// Renders this record as one line of text.
    pub fn render(&self) -> (r: String)
        ensures
            r@ == exec_line(self@),
    {
        let mut out = u64_dec(self.count as u64);
        out.append(": ");
        out.append(self.time.as_str());
        out.append(" Op: ");
        out.append("\"");
        out.append(self.operation.as_str());
        out.append("\"");
        out.append(" RE: ");
        out.append("\"");
        out.append(self.pattern.as_str());
        out.append("\"");
        out.append(" str: ");
        out.append("\"");
        out.append(self.string.as_str());
        out.append("\"");
        proof {
            assert(out@ =~= exec_line(self@));
        }
        out
    }

    /// A copy of this record.
    pub fn duplicate(&self) -> (r: Execution)
        ensures
            r@ == self@,
    {
        Execution {
            time: self.time.clone(),
            operation: self.operation.clone(),
            pattern: self.pattern.clone(),
            string: self.string.clone(),
            count: self.count,
        }
    }
}

/// Whether record `e` is for the (pattern, subject) pair `(p, s)`.
pub open spec fn same_pair(e: ExecutionV, p: Seq<char>, s: Seq<char>) -> bool {
    e.pattern == p && e.string == s
}

/// The index of the most recent record for the pair, or -1 if there is
/// none (the log is scanned from its end).
pub open spec fn last_pair_index(log: Seq<ExecutionV>, p: Seq<char>, s: Seq<char>) -> int
    decreases log.len(),
{
    if log.len() == 0 {
        -1
    } else if same_pair(log.last(), p, s) {
        log.len() - 1
    } else {
        last_pair_index(log.drop_last(), p, s)
    }
}

/// A count one higher, capped at the largest representable value.
pub open spec fn bump(c: u32) -> u32 {
    if c == u32::MAX {
        c
    } else {
        (c + 1) as u32
    }
}

/// What adding a record does to the log: the most recent record for the
/// same (pattern, subject) pair, if any, is removed and the new record
/// carries its count plus one; otherwise the new record carries count 1.
/// Either way the new record is appended at the end.
pub open spec fn add_spec(log: Seq<ExecutionV>, e: ExecutionV) -> Seq<ExecutionV> {
    let i = last_pair_index(log, e.pattern, e.string);
    if i >= 0 {
        log.remove(i).push(ExecutionV { count: bump(log[i].count), ..e })
    } else {
        log.push(ExecutionV { count: 1, ..e })
    }
}

/// If no record at an index at or above `j` is for the pair, the scan of
/// the whole log agrees with the scan of its first `j` records.
proof fn lemma_scan_skips_suffix(log: Seq<ExecutionV>, p: Seq<char>, s: Seq<char>, j: int)
    requires
        0 <= j <= log.len(),
        forall|k: int| j <= k < log.len() ==> !same_pair(#[trigger] log[k], p, s),
    ensures
        last_pair_index(log, p, s) == last_pair_index(log.take(j), p, s),
    decreases log.len() - j,
{
    if j == log.len() {
        assert(log.take(j) =~= log);
    } else {
        lemma_scan_skips_suffix(log.drop_last(), p, s, j);
        assert(log.drop_last().take(j) =~= log.take(j));
    }
}

/// A log holds no record for the pair exactly when the scan reports none.
pub proof fn lemma_no_pair(log: Seq<ExecutionV>, p: Seq<char>, s: Seq<char>)
    ensures
        last_pair_index(log, p, s) < 0 <==> (forall|k: int|
            0 <= k < log.len() ==> !same_pair(#[trigger] log[k], p, s)),
        last_pair_index(log, p, s) >= -1,
    decreases log.len(),
{
    if log.len() > 0 {
        lemma_no_pair(log.drop_last(), p, s);
        assert(forall|k: int|
            0 <= k < log.len() - 1 ==> #[trigger] log[k] == log.drop_last()[k]);
        assert(log[log.len() - 1] == log.last());
    }
}

/// Whether no two records of the log are for the same (pattern, subject)
/// pair.
pub open spec fn unique_pairs(log: Seq<ExecutionV>) -> bool {
    forall|a: int, b: int|
        0 <= a < b < log.len() ==> !(#[trigger] log[a].pattern == #[trigger] log[b].pattern
            && log[a].string == log[b].string)
}

/// A scan that reports an index reports a record for the pair, in range.
proof fn lemma_pair_index_in_range(log: Seq<ExecutionV>, p: Seq<char>, s: Seq<char>)
    requires
        last_pair_index(log, p, s) >= 0,
    ensures
        0 <= last_pair_index(log, p, s) < log.len(),
        same_pair(log[last_pair_index(log, p, s)], p, s),
    decreases log.len(),
{
    if log.len() > 0 && !same_pair(log.last(), p, s) {
        lemma_pair_index_in_range(log.drop_last(), p, s);
    }
}

/// Adding a record keeps the log's records unique by (pattern, subject)
/// pair.
pub proof fn lemma_add_keeps_pairs_unique(log: Seq<ExecutionV>, e: ExecutionV)
    requires
        unique_pairs(log),
    ensures
        unique_pairs(add_spec(log, e)),
{
    let i = last_pair_index(log, e.pattern, e.string);
    if i >= 0 {
        lemma_pair_index_in_range(log, e.pattern, e.string);
        let trimmed = log.remove(i);
        assert forall|k: int| 0 <= k < trimmed.len() implies !same_pair(
            #[trigger] trimmed[k],
            e.pattern,
            e.string,
        ) by {
            if k < i {
                assert(trimmed[k] == log[k]);
            } else {
                assert(trimmed[k] == log[k + 1]);
            }
        }
        assert(unique_pairs(trimmed)) by {
            assert forall|a: int, b: int| 0 <= a < b < trimmed.len() implies !(
            #[trigger] trimmed[a].pattern == #[trigger] trimmed[b].pattern && trimmed[a].string
                == trimmed[b].string) by {
                let a0: int = if a < i {
                    a
                } else {
                    a + 1
                };
                let b0: int = if b < i {
                    b
                } else {
                    b + 1
                };
                assert(trimmed[a] == log[a0]);
                assert(trimmed[b] == log[b0]);
            }
        }
        let result = trimmed.push(ExecutionV { count: bump(log[i].count), ..e });
        assert forall|a: int, b: int| 0 <= a < b < result.len() implies !(
        #[trigger] result[a].pattern == #[trigger] result[b].pattern && result[a].string
            == result[b].string) by {
            if b == result.len() - 1 {
                assert(result[a] == trimmed[a]);
                assert(!same_pair(trimmed[a], e.pattern, e.string));
            } else {
                assert(result[a] == trimmed[a]);
                assert(result[b] == trimmed[b]);
            }
        }
    } else {
        lemma_no_pair(log, e.pattern, e.string);
        assert(forall|k: int|
            0 <= k < log.len() ==> !same_pair(#[trigger] log[k], e.pattern, e.string));
        let result = log.push(ExecutionV { count: 1, ..e });
        assert forall|a: int, b: int| 0 <= a < b < result.len() implies !(
        #[trigger] result[a].pattern == #[trigger] result[b].pattern && result[a].string
            == result[b].string) by {
            if b == result.len() - 1 {
                assert(result[a] == log[a]);
                assert(!same_pair(log[a], e.pattern, e.string));
            } else {
                assert(result[a] == log[a]);
                assert(result[b] == log[b]);
            }
        }
    }
}

/// The history log.
pub struct History {
    log: Vec<Execution>,
}

impl View for History {
    type V = Seq<ExecutionV>;

    closed spec fn view(&self) -> Seq<ExecutionV> {
        self.log.deep_view()
    }
}

/// The line for the record at index `i`, as the history view shows it.
pub open spec fn history_line(i: nat, e: ExecutionV) -> Seq<char> {
    dec_chars(i) + ": "@ + exec_line(e) + "\n"@
}

/// The lines for the records at indices `k - 1` down to `0`, most recent
/// first.
pub open spec fn history_lines(log: Seq<ExecutionV>, k: int) -> Seq<char>
    decreases k,
{
    if k <= 0 {
        Seq::empty()
    } else {
        history_line((k - 1) as nat, log[k - 1]) + history_lines(log, k - 1)
    }
}

/// The rendering of a whole log, most recent record first.
pub open spec fn render_spec(log: Seq<ExecutionV>) -> Seq<char> {
    if log.len() == 0 {
        "No history as yet"@
    } else {
        history_lines(log, log.len() as int)
    }
}

impl Default for History {
    /// An empty history.
    fn default() -> (r: History)
        ensures
            r@ == Seq::<ExecutionV>::empty(),
    {
        History::new()
    }
}

impl History {
    /// An empty history.
    pub fn new() -> (r: History)
        ensures
            r@ == Seq::<ExecutionV>::empty(),
    {
        let h = History { log: Vec::new() };
        proof {
            assert(h@ =~= Seq::<ExecutionV>::empty());
        }
        h
    }

    /// A history holding the given records.
    pub fn from_records(log: Vec<Execution>) -> (r: History)
        ensures
            r@ == log.deep_view(),
    {
        History { log }
    }

    /// How many records the log holds.
    pub fn len(&self) -> (r: usize)
        ensures
            r == self@.len(),
    {
        self.log.len()
    }

    /// The record at index `i`.
    pub fn get(&self, i: usize) -> (r: &Execution)
        requires
            i < self@.len(),
        ensures
            r@ == self@[i as int],
    {
        &self.log[i]
    }

    /// Appends one run: the most recent record for the same (pattern,
    /// subject) pair, if any, is removed and its count carried over,
    /// incremented; otherwise the run counts as the first for its pair.
    #[verifier::loop_isolation(false)]
    pub fn add(&mut self, exe: Execution)
        ensures
            final(self)@ == add_spec(old(self)@, exe@),
    {
        let ghost logv = self.log.deep_view();
        let ghost p = exe.pattern@;
        let ghost s = exe.string@;
        let mut j: usize = self.log.len();
        let mut found: Option<usize> = None;
        while j > 0 && found.is_none()
            invariant
                j <= self@.len(),
                self.log.deep_view() == logv,
                match found {
                    Some(i) => {
                        &&& i < logv.len()
                        &&& i as int == last_pair_index(logv, p, s)
                    },
                    None => forall|k: int|
                        j <= k < logv.len() ==> !same_pair(#[trigger] logv[k], p, s),
                },
            decreases j,
        {
            let c = &self.log[j - 1];
            if c.pattern == exe.pattern && c.string == exe.string {
                found = Some(j - 1);
                proof {
                    assert(logv[j - 1] == self.log[j - 1 as int]@);
                    assert(same_pair(logv[j - 1], p, s));
                    lemma_scan_skips_suffix(logv, p, s, j as int);
                    assert(logv.take(j as int).last() == logv[j as int - 1]);
                    assert(last_pair_index(logv.take(j as int), p, s) == j - 1);
                }
            }
            j = j - 1;
        }
        proof {
            if found is None {
                lemma_scan_skips_suffix(logv, p, s, 0);
                assert(logv.take(0) =~= Seq::<ExecutionV>::empty());
            }
        }
        match found {
            Some(i) => {
                let prior = self.log.remove(i);
                let c = if prior.count == u32::MAX {
                    u32::MAX
                } else {
                    prior.count + 1
                };
                let rec = Execution { count: c, ..exe };
                self.log.push(rec);
                proof {
                    assert(self.log.deep_view() =~= add_spec(logv, exe@));
                }
            },
            None => {
                let rec = Execution { count: 1, ..exe };
                self.log.push(rec);
                proof {
                    assert(self.log.deep_view() =~= add_spec(logv, exe@));
                }
            },
        }
    }

    /// Renders the whole log, most recent record first; an empty log
    /// renders as a single sentence.
    pub fn to_str(&self) -> (r: String)
        ensures
            r@ == render_spec(self@),
    {
        let ghost logv = self@;
        if self.log.len() == 0 {
            let mut out = String::new();
            out.append("No history as yet");
            proof {
                assert(out@ =~= "No history as yet"@);
            }
            out
        } else {
            let mut out = String::new();
            let mut k: usize = self.log.len();
            while k > 0
                invariant
                    k <= logv.len(),
                    self@ == logv,
                    out@ + history_lines(logv, k as int) =~= history_lines(
                        logv,
                        logv.len() as int,
                    ),
                decreases k,
            {
                let line = self.log[k - 1].render();
                let idx = u64_dec((k - 1) as u64);
                out.append(idx.as_str());
                out.append(": ");
                out.append(line.as_str());
                out.append("\n");
                proof {
                    assert(self.log.deep_view()[k - 1] == self.log[k - 1 as int]@);
                    assert(out@ + history_lines(logv, k as int - 1) =~= history_lines(
                        logv,
                        logv.len() as int,
                    ));
                }
                k = k - 1;
            }
            proof {
                assert(out@ =~= history_lines(logv, logv.len() as int));
            }
            out
        }
    }

    /// The most recently appended record, if any.
    pub fn last(&self) -> (r: Option<Execution>)
        ensures
            self@.len() == 0 ==> r is None,
            self@.len() > 0 ==> (r matches Some(e) && e@ == self@.last()),
    {
        if self.log.len() == 0 {
            None
        } else {
            Some(self.log[self.log.len() - 1].duplicate())
        }
    }
}

/// After two runs of the same (pattern, subject) pair on a log that held
/// no record for it, the log holds exactly one record for the pair, at the
/// end, with a count of 2 and the operation of the second run.
pub proof fn lemma_add_twice(log: Seq<ExecutionV>, e1: ExecutionV, e2: ExecutionV)
    requires
        forall|k: int| 0 <= k < log.len() ==> !same_pair(#[trigger] log[k], e1.pattern, e1.string),
        e2.pattern == e1.pattern,
        e2.string == e1.string,
    ensures
        ({
            let l2 = add_spec(add_spec(log, e1), e2);
            &&& l2.len() == log.len() + 1
            &&& l2.last() == ExecutionV { count: 2, ..e2 }
            &&& forall|k: int|
                0 <= k < l2.len() - 1 ==> !same_pair(#[trigger] l2[k], e1.pattern, e1.string)
        }),
{
    lemma_no_pair(log, e1.pattern, e1.string);
    let f1 = ExecutionV { count: 1, ..e1 };
    let l1 = log.push(f1);
    assert(add_spec(log, e1) == l1);
    assert(same_pair(l1.last(), e2.pattern, e2.string));
    assert(last_pair_index(l1, e2.pattern, e2.string) == log.len());
    let l2 = add_spec(l1, e2);
    assert(l1.remove(log.len() as int) =~= log);
    assert(l2 == log.push(ExecutionV { count: 2, ..e2 }));
}

} // verus!
