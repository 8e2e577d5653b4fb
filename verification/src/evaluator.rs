//! The pattern evaluator: runs one of the three operations (match, find,
//! split) of a pattern against a subject and renders a plain-text report
//! together with a success flag.

use vstd::prelude::*;
use vstd::string::StringExecFns;
use vstd::pervasive::unreached;
use crate::digits::{dec_chars, u64_dec};
use vstd::string::StringSliceAdditionalSpecFns;
use vstd::utf8::encode_utf8;
use crate::engine::{
    engine_captures, engine_find_iter, engine_is_match, regex_captures, regex_error_text,
    regex_finds, regex_is_match, regex_valid, try_compile,
};
use crate::pieces::{gap_pieces, split_parts};

verus! {

/// The three operations the evaluator offers.
#[derive(Clone, Copy, PartialEq, Eq, Structural, Debug)]
pub enum Op {
    Match,
    Find,
    Split,
}

/// `x` wrapped in double quotes.
pub open spec fn quoted(x: Seq<char>) -> Seq<char> {
    "\""@ + x + "\""@
}

/// The report for a pattern the engine rejects.
pub open spec fn error_report(msg: Seq<char>) -> Seq<char> {
    "Error with pattern: "@ + msg
}

/// The line reporting one capture group.
pub open spec fn group_line(i: nat, g: Option<Seq<char>>) -> Seq<char> {
    "group["@ + dec_chars(i) + "] = "@ + (match g {
        Some(t) => quoted(t),
        None => "None"@,
    }) + "\n"@
}

/// The lines for the first `n` capture groups, in order.
pub open spec fn group_lines(caps: Seq<Option<Seq<char>>>, n: int) -> Seq<char>
    decreases n,
{
    if n <= 0 {
        Seq::empty()
    } else {
        group_lines(caps, n - 1) + group_line((n - 1) as nat, caps[n - 1])
    }
}

/// The header of a successful match report.
pub open spec fn match_header(p: Seq<char>, s: Seq<char>) -> Seq<char> {
    "Matching: "@ + quoted(p) + "\nAgainst: "@ + quoted(s) + "\n\n"@
}

/// The report for a well-formed pattern that does not match the subject.
pub open spec fn no_match_report(p: Seq<char>, s: Seq<char>) -> Seq<char> {
    "String:\n"@ + quoted(s) + "\nDoes not match Pattern:\n"@ + quoted(p)
}

/// What the match operation returns: its report and its success flag.
pub open spec fn match_result(p: Seq<char>, s: Seq<char>) -> (Seq<char>, bool) {
    if !regex_valid(p) {
        (error_report(regex_error_text(p)), false)
    } else if regex_is_match(p, s) {
        (
            match_header(p, s) + group_lines(
                regex_captures(p, s),
                regex_captures(p, s).len() as int,
            ),
            true,
        )
    } else {
        (no_match_report(p, s), false)
    }
}

/// The header of a find report.
pub open spec fn find_header(p: Seq<char>, s: Seq<char>) -> Seq<char> {
    "Find pattern:\n"@ + quoted(p) + "\nIn:\n"@ + quoted(s) + "\n\n"@
}

/// The line reporting one found match: its iteration index, its text and
/// its half-open byte range.
pub open spec fn find_line(i: nat, m: (Seq<char>, int, int)) -> Seq<char> {
    "Iteration "@ + dec_chars(i) + " found "@ + quoted(m.0) + " at ("@ + dec_chars(m.1 as nat)
        + ".."@ + dec_chars(m.2 as nat) + ")\n"@
}

/// The lines for the first `n` found matches, in order.
pub open spec fn find_lines(ms: Seq<(Seq<char>, int, int)>, n: int) -> Seq<char>
    decreases n,
{
    if n <= 0 {
        Seq::empty()
    } else {
        find_lines(ms, n - 1) + find_line((n - 1) as nat, ms[n - 1])
    }
}

/// What the find operation returns: its report and its success flag. The
/// report enumerates one iteration line per non-overlapping match, in
/// order; the flag holds exactly when at least one match was found.
pub open spec fn find_result(p: Seq<char>, s: Seq<char>) -> (Seq<char>, bool) {
    if !regex_valid(p) {
        (error_report(regex_error_text(p)), false)
    } else if regex_finds(p, s).len() == 0 {
        (find_header(p, s) + "Found nothing"@, false)
    } else {
        (find_header(p, s) + find_lines(regex_finds(p, s), regex_finds(p, s).len() as int), true)
    }
}

/// The header of a split report.
pub open spec fn split_header(p: Seq<char>, s: Seq<char>) -> Seq<char> {
    "Splitting with pattern:\n"@ + quoted(p) + "\nString:\n"@ + quoted(s) + "\n\n"@
}

/// The line reporting one split piece.
pub open spec fn split_line(i: nat, piece: Seq<char>) -> Seq<char> {
    "Index "@ + dec_chars(i) + " is "@ + quoted(piece) + "\n"@
}

/// The lines for the first `n` split pieces, in order.
pub open spec fn split_lines(pieces: Seq<Seq<char>>, n: int) -> Seq<char>
    decreases n,
{
    if n <= 0 {
        Seq::empty()
    } else {
        split_lines(pieces, n - 1) + split_line((n - 1) as nat, pieces[n - 1])
    }
}

/// What the split operation returns: its report and its success flag. The
/// report enumerates the pieces of the subject delimited by the matches;
/// splitting always yields at least one piece, so a well-formed pattern
/// always succeeds.
pub open spec fn split_result(p: Seq<char>, s: Seq<char>) -> (Seq<char>, bool) {
    if !regex_valid(p) {
        (error_report(regex_error_text(p)), false)
    } else {
        let pieces = gap_pieces(encode_utf8(s), regex_finds(p, s));
        (split_header(p, s) + split_lines(pieces, pieces.len() as int), true)
    }
}

/// Appends `x` wrapped in double quotes.
fn append_quoted(out: &mut String, x: &str)
    ensures
        final(out)@ == old(out)@ + quoted(x@),
{
    out.append("\"");
    out.append(x);
    out.append("\"");
    proof {
        assert(out@ =~= old(out)@ + quoted(x@));
    }
}

/// The report for a pattern the engine rejected, from its message.
fn build_error_report(msg: &str) -> (r: String)
    ensures
        r@ == error_report(msg@),
{
    let mut out = String::new();
    out.append("Error with pattern: ");
    out.append(msg);
    out
}

/// Tests whether the pattern matches the subject and reports the capture
/// groups of the first match.
pub fn matches(pattern: &str, subject: &str) -> (r: (String, bool))
    ensures
        r.0@ == match_result(pattern@, subject@).0,
        r.1 == match_result(pattern@, subject@).1,
        r.1 <==> regex_valid(pattern@) && regex_is_match(pattern@, subject@),
{
    match try_compile(pattern) {
        Err(msg) => (build_error_report(msg.as_str()), false),
        Ok(()) => {
            if engine_is_match(pattern, subject) {
                match engine_captures(pattern, subject) {
                    Some(caps) => {
                        let ghost capsv = regex_captures(pattern@, subject@);
                        let mut out = String::new();
                        out.append("Matching: ");
                        append_quoted(&mut out, pattern);
                        out.append("\nAgainst: ");
                        append_quoted(&mut out, subject);
                        out.append("\n\n");
                        proof {
                            assert(out@ =~= match_header(pattern@, subject@));
                        }
                        let mut i: usize = 0;
                        while i < caps.len()
                            invariant
                                caps.deep_view() == capsv,
                                i <= caps@.len(),
                                caps@.len() == capsv.len(),
                                out@ == match_header(pattern@, subject@) + group_lines(
                                    capsv,
                                    i as int,
                                ),
                            decreases caps@.len() - i,
                        {
                            out.append("group[");
                            let n = u64_dec(i as u64);
                            out.append(n.as_str());
                            out.append("] = ");
                            match &caps[i] {
                                Some(t) => {
                                    append_quoted(&mut out, t.as_str());
                                },
                                None => {
                                    out.append("None");
                                },
                            }
                            out.append("\n");
                            proof {
                                assert(capsv[i as int] == caps.deep_view()[i as int]);
                                assert(out@ =~= match_header(pattern@, subject@) + group_lines(
                                    capsv,
                                    i as int + 1,
                                ));
                            }
                            i = i + 1;
                        }
                        (out, true)
                    },
                    None => unreached(),
                }
            } else {
                let mut out = String::new();
                out.append("String:\n");
                append_quoted(&mut out, subject);
                out.append("\nDoes not match Pattern:\n");
                append_quoted(&mut out, pattern);
                proof {
                    assert(out@ =~= no_match_report(pattern@, subject@));
                }
                (out, false)
            }
        },
    }
}

/// Enumerates every non-overlapping match of the pattern in the subject,
/// with its text and byte range.
pub fn find(pattern: &str, subject: &str) -> (r: (String, bool))
    ensures
        r.0@ == find_result(pattern@, subject@).0,
        r.1 == find_result(pattern@, subject@).1,
        r.1 <==> regex_valid(pattern@) && regex_is_match(pattern@, subject@),
{
    match try_compile(pattern) {
        Err(msg) => (build_error_report(msg.as_str()), false),
        Ok(()) => {
            let ghost findsv = regex_finds(pattern@, subject@);
            let ms = engine_find_iter(pattern, subject);
            let mut out = String::new();
            out.append("Find pattern:\n");
            append_quoted(&mut out, pattern);
            out.append("\nIn:\n");
            append_quoted(&mut out, subject);
            out.append("\n\n");
            proof {
                assert(out@ =~= find_header(pattern@, subject@));
            }
            if ms.len() == 0 {
                out.append("Found nothing");
                (out, false)
            } else {
                let mut i: usize = 0;
                while i < ms.len()
                    invariant
                        i <= ms@.len(),
                        ms@.len() == findsv.len(),
                        forall|j: int|
                            0 <= j < ms@.len() ==> {
                                &&& ms@[j].text@ == #[trigger] findsv[j].0
                                &&& ms@[j].start == findsv[j].1
                                &&& ms@[j].end == findsv[j].2
                            },
                        out@ == find_header(pattern@, subject@) + find_lines(findsv, i as int),
                    decreases ms@.len() - i,
                {
                    out.append("Iteration ");
                    let n = u64_dec(i as u64);
                    out.append(n.as_str());
                    out.append(" found ");
                    append_quoted(&mut out, ms[i].text.as_str());
                    out.append(" at (");
                    let a = u64_dec(ms[i].start as u64);
                    out.append(a.as_str());
                    out.append("..");
                    let b = u64_dec(ms[i].end as u64);
                    out.append(b.as_str());
                    out.append(")\n");
                    proof {
                        assert(out@ =~= find_header(pattern@, subject@) + find_lines(
                            findsv,
                            i as int + 1,
                        ));
                    }
                    i = i + 1;
                }
                (out, true)
            }
        },
    }
}

/// Splits the subject on every match of the pattern and enumerates the
/// resulting pieces.
pub fn split(pattern: &str, subject: &str) -> (r: (String, bool))
    ensures
        r.0@ == split_result(pattern@, subject@).0,
        r.1 == split_result(pattern@, subject@).1,
        r.1 <==> regex_valid(pattern@),
{
    match try_compile(pattern) {
        Err(msg) => (build_error_report(msg.as_str()), false),
        Ok(()) => {
            match split_parts(pattern, subject) {
                Some(parts) => {
                    let ghost piecesv = gap_pieces(
                        encode_utf8(subject@),
                        regex_finds(pattern@, subject@),
                    );
                    let (pieces, _seps) = parts;
                    let mut out = String::new();
                    out.append("Splitting with pattern:\n");
                    append_quoted(&mut out, pattern);
                    out.append("\nString:\n");
                    append_quoted(&mut out, subject);
                    out.append("\n\n");
                    proof {
                        assert(out@ =~= split_header(pattern@, subject@));
                    }
                    let mut j: usize = 0;
                    while j < pieces.len()
                        invariant
                            j <= pieces@.len(),
                            pieces.deep_view() == piecesv,
                            pieces@.len() == piecesv.len(),
                            out@ == split_header(pattern@, subject@) + split_lines(
                                piecesv,
                                j as int,
                            ),
                        decreases pieces@.len() - j,
                    {
                        out.append("Index ");
                        let n = u64_dec(j as u64);
                        out.append(n.as_str());
                        out.append(" is ");
                        append_quoted(&mut out, pieces[j].as_str());
                        out.append("\n");
                        proof {
                            assert(piecesv[j as int] == pieces.deep_view()[j as int]);
                            assert(out@ =~= split_header(pattern@, subject@) + split_lines(
                                piecesv,
                                j as int + 1,
                            ));
                        }
                        j = j + 1;
                    }
                    (out, true)
                },
                None => unreached(),
            }
        },
    }
}

/// What the evaluator returns for an operation: its report and its flag.
pub open spec fn evaluate_result(op: Op, p: Seq<char>, s: Seq<char>) -> (Seq<char>, bool) {
    match op {
        Op::Match => match_result(p, s),
        Op::Find => find_result(p, s),
        Op::Split => split_result(p, s),
    }
}

/// Runs one operation of the pattern against the subject: the report and
/// whether the operation succeeded.
pub fn evaluate(op: Op, pattern: &str, subject: &str) -> (r: (String, bool))
    ensures
        r.0@ == evaluate_result(op, pattern@, subject@).0,
        r.1 == evaluate_result(op, pattern@, subject@).1,
{
    match op {
        Op::Match => matches(pattern, subject),
        Op::Find => find(pattern, subject),
        Op::Split => split(pattern, subject),
    }
}

/// For every well-formed pattern, the match operation succeeds exactly
/// when the pattern matches the subject at least once.
pub proof fn lemma_match_ok(p: Seq<char>, s: Seq<char>)
    requires
        regex_valid(p),
    ensures
        match_result(p, s).1 <==> regex_is_match(p, s),
{
}

/// For every well-formed pattern, the find report carries the header
/// followed by one iteration line per non-overlapping match, in order, and
/// succeeds exactly when there is at least one match.
pub proof fn lemma_find_enumerates_matches(p: Seq<char>, s: Seq<char>)
    requires
        regex_valid(p),
        regex_finds(p, s).len() > 0,
    ensures
        find_result(p, s).0 == find_header(p, s) + find_lines(
            regex_finds(p, s),
            regex_finds(p, s).len() as int,
        ),
        find_result(p, s).1,
{
}

} // verus!
