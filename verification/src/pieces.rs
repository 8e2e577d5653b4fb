//! Cutting a subject at the engine's match ranges.
//!
//! The split operation yields the substrings of the subject between the
//! successive non-overlapping matches of the pattern. The engine reports
//! the matches; the cutting itself is done and verified here, and it is
//! proved that the pieces, rejoined with each matched separator reinserted
//! in order, reconstruct the subject exactly.

use vstd::prelude::*;
use vstd::string::StringSliceAdditionalSpecFns;
use vstd::utf8::{
    decode_utf8, encode_utf8, encode_utf8_decode_utf8, encode_utf8_valid_utf8, decode_utf8_split,
    is_char_boundary, is_char_boundary_iff_not_is_continuation_byte,
    is_char_boundary_start_end_of_seq, valid_utf8, valid_utf8_split,
};
use crate::engine::{engine_find_iter, regex_finds, regex_valid, try_compile};

verus! {

/// The byte offset at which the piece before match `i` starts: the end of
/// the previous match, or the start of the subject.
pub open spec fn gap_start(finds: Seq<(Seq<char>, int, int)>, i: int) -> int {
    if i == 0 {
        0
    } else {
        finds[i - 1].2
    }
}

/// The pieces of a subject (given by its UTF-8 bytes) delimited by the
/// match ranges in `finds`: one piece before each match, and a final piece
/// after the last match.
pub open spec fn gap_pieces(bytes: Seq<u8>, finds: Seq<(Seq<char>, int, int)>) -> Seq<Seq<char>> {
    Seq::new(
        finds.len() + 1,
        |i: int|
            decode_utf8(
                bytes.subrange(
                    gap_start(finds, i),
                    if i == finds.len() as int {
                        bytes.len() as int
                    } else {
                        finds[i].1
                    },
                ),
            ),
    )
}

/// `pieces[0] + seps[0] + pieces[1] + ... + pieces[last]`: the pieces
/// rejoined with each separator reinserted in order.
pub open spec fn interleave(pieces: Seq<Seq<char>>, seps: Seq<Seq<char>>) -> Seq<char>
    decreases pieces.len(),
{
    if pieces.len() == 0 {
        Seq::empty()
    } else if seps.len() == 0 {
        pieces[0]
    } else {
        pieces[0] + seps[0] + interleave(pieces.drop_first(), seps.drop_first())
    }
}

/// The first `k` pieces, each followed by its separator.
pub open spec fn zipcat(pieces: Seq<Seq<char>>, seps: Seq<Seq<char>>, k: int) -> Seq<char>
    decreases k,
{
    if k <= 0 {
        Seq::empty()
    } else {
        zipcat(pieces, seps, k - 1) + pieces[k - 1] + seps[k - 1]
    }
}

/// `zipcat` reads only the first `k` elements of either sequence.
proof fn lemma_zipcat_prefix(
    p1: Seq<Seq<char>>,
    s1: Seq<Seq<char>>,
    p2: Seq<Seq<char>>,
    s2: Seq<Seq<char>>,
    k: int,
)
    requires
        forall|j: int| 0 <= j < k ==> p1[j] == p2[j] && s1[j] == s2[j],
    ensures
        zipcat(p1, s1, k) == zipcat(p2, s2, k),
    decreases k,
{
    if k > 0 {
        lemma_zipcat_prefix(p1, s1, p2, s2, k - 1);
    }
}

/// Shifting one piece and one separator out of the front of `zipcat`.
proof fn lemma_zipcat_shift(pieces: Seq<Seq<char>>, seps: Seq<Seq<char>>, k: int)
    requires
        0 <= k <= seps.len(),
        k < pieces.len(),
    ensures
        k > 0 ==> zipcat(pieces, seps, k) == pieces[0] + seps[0] + zipcat(
            pieces.drop_first(),
            seps.drop_first(),
            k - 1,
        ),
    decreases k,
{
    if k > 1 {
        lemma_zipcat_shift(pieces, seps, k - 1);
        assert(zipcat(pieces, seps, k) =~= pieces[0] + seps[0] + (zipcat(
            pieces.drop_first(),
            seps.drop_first(),
            k - 2,
        ) + pieces.drop_first()[k - 2] + seps.drop_first()[k - 2]));
    } else if k == 1 {
        assert(zipcat(pieces, seps, 0) == Seq::<char>::empty());
        assert(zipcat(pieces.drop_first(), seps.drop_first(), 0) == Seq::<char>::empty());
        assert(zipcat(pieces, seps, 1) =~= pieces[0] + seps[0] + zipcat(
            pieces.drop_first(),
            seps.drop_first(),
            0,
        ));
    }
}

/// Rejoining all pieces equals the zipped front followed by the last piece.
proof fn lemma_interleave_zipcat(pieces: Seq<Seq<char>>, seps: Seq<Seq<char>>)
    requires
        pieces.len() == seps.len() + 1,
    ensures
        interleave(pieces, seps) == zipcat(pieces, seps, seps.len() as int) + pieces.last(),
    decreases pieces.len(),
{
    if seps.len() == 0 {
        assert(interleave(pieces, seps) == pieces[0]);
        assert(zipcat(pieces, seps, 0) + pieces.last() =~= pieces[0]);
    } else {
        lemma_interleave_zipcat(pieces.drop_first(), seps.drop_first());
        lemma_zipcat_shift(pieces, seps, seps.len() as int);
        assert(interleave(pieces, seps) =~= zipcat(pieces, seps, seps.len() as int)
            + pieces.last());
    }
}

/// A character boundary of a byte sequence, at or after a boundary offset
/// `off`, is a character boundary of the suffix starting at `off`.
proof fn lemma_boundary_suffix(bytes: Seq<u8>, off: int, idx: int)
    requires
        valid_utf8(bytes),
        is_char_boundary(bytes, off),
        is_char_boundary(bytes, idx),
        0 <= off <= idx <= bytes.len(),
    ensures
        valid_utf8(bytes.subrange(off, bytes.len() as int)),
        is_char_boundary(bytes.subrange(off, bytes.len() as int), idx - off),
{
    valid_utf8_split(bytes, off);
    let suffix = bytes.subrange(off, bytes.len() as int);
    if idx == bytes.len() {
        is_char_boundary_start_end_of_seq(suffix);
    } else if idx == off {
        is_char_boundary_start_end_of_seq(suffix);
    } else {
        is_char_boundary_iff_not_is_continuation_byte(bytes, idx);
        assert(suffix[idx - off] == bytes[idx]);
        is_char_boundary_iff_not_is_continuation_byte(suffix, idx - off);
    }
}

/// Splitting a string at a character boundary splits its character
/// sequence: each half decodes from its half of the bytes.
proof fn lemma_split_chars(w: Seq<char>, a: Seq<char>, b: Seq<char>, mid: int)
    requires
        0 <= mid <= encode_utf8(w).len(),
        is_char_boundary(encode_utf8(w), mid),
        encode_utf8(a) == encode_utf8(w).subrange(0, mid),
        encode_utf8(b) == encode_utf8(w).subrange(mid, encode_utf8(w).len() as int),
    ensures
        w == a + b,
        a == decode_utf8(encode_utf8(w).subrange(0, mid)),
        b == decode_utf8(encode_utf8(w).subrange(mid, encode_utf8(w).len() as int)),
{
    encode_utf8_valid_utf8(w);
    decode_utf8_split(encode_utf8(w), mid);
    encode_utf8_decode_utf8(w);
    encode_utf8_decode_utf8(a);
    encode_utf8_decode_utf8(b);
}

/// Splits the subject on every match of the pattern: `None` exactly when
/// the engine rejects the pattern; otherwise the ordered pieces between
/// matches together with the matched separators. The pieces, rejoined with
/// each separator reinserted in order, reconstruct the subject exactly.
#[verifier::loop_isolation(false)]
#[verifier::rlimit(60)]
pub fn split_parts(pattern: &str, subject: &str) -> (r: Option<(Vec<String>, Vec<String>)>)
    ensures
        r is Some <==> regex_valid(pattern@),
        r matches Some(parts) ==> {
            let finds = regex_finds(pattern@, subject@);
            &&& parts.0.deep_view() == gap_pieces(subject.spec_bytes(), finds)
            &&& parts.0@.len() == finds.len() + 1
            &&& parts.1@.len() == finds.len()
            &&& (forall|i: int| 0 <= i < finds.len() ==> #[trigger] parts.1@[i]@ == finds[i].0)
            &&& interleave(parts.0.deep_view(), parts.1.deep_view()) == subject@
        },
{
    match try_compile(pattern) {
        Err(_) => None,
        Ok(()) => {
            let ghost finds = regex_finds(pattern@, subject@);
            let ghost sbytes = subject.spec_bytes();
            let ms = engine_find_iter(pattern, subject);
            let mut pieces: Vec<String> = Vec::new();
            let mut seps: Vec<String> = Vec::new();
            let mut rest: &str = subject;
            let mut last: usize = 0;
            let mut i: usize = 0;
            proof {
                encode_utf8_valid_utf8(subject@);
                is_char_boundary_start_end_of_seq(sbytes);
                assert(rest.spec_bytes() =~= sbytes.subrange(last as int, sbytes.len() as int));
            }
            while i < ms.len()
                invariant
                    i <= ms@.len(),
                    pieces@.len() == i,
                    seps@.len() == i,
                    last as int == gap_start(finds, i as int),
                    is_char_boundary(sbytes, last as int),
                    last <= sbytes.len(),
                    rest.spec_bytes() == sbytes.subrange(last as int, sbytes.len() as int),
                    forall|j: int|
                        0 <= j < i ==> #[trigger] pieces.deep_view()[j] == gap_pieces(
                            sbytes,
                            finds,
                        )[j],
                    forall|j: int| 0 <= j < i ==> #[trigger] seps@[j]@ == finds[j].0,
                    subject@ == zipcat(pieces.deep_view(), seps.deep_view(), i as int) + rest@,
                decreases ms@.len() - i,
            {
                let start = ms[i].start;
                let end = ms[i].end;
                let mid = start - last;
                proof {
                    lemma_boundary_suffix(sbytes, last as int, start as int);
                }
                let (piece, r1) = rest.split_at(mid);
                proof {
                    assert(rest.spec_bytes().subrange(0, mid as int) =~= sbytes.subrange(
                        last as int,
                        start as int,
                    ));
                    assert(rest.spec_bytes().subrange(mid as int, rest.spec_bytes().len() as int)
                        =~= sbytes.subrange(start as int, sbytes.len() as int));
                    lemma_boundary_suffix(sbytes, last as int, start as int);
                    lemma_split_chars(rest@, piece@, r1@, mid as int);
                }
                let slen = end - start;
                proof {
                    lemma_boundary_suffix(sbytes, start as int, end as int);
                    assert(r1.spec_bytes() == sbytes.subrange(start as int, sbytes.len() as int));
                }
                let (sep, r2) = r1.split_at(slen);
                proof {
                    assert(r1.spec_bytes().subrange(0, slen as int) =~= sbytes.subrange(
                        start as int,
                        end as int,
                    ));
                    assert(r1.spec_bytes().subrange(slen as int, r1.spec_bytes().len() as int)
                        =~= sbytes.subrange(end as int, sbytes.len() as int));
                    lemma_split_chars(r1@, sep@, r2@, slen as int);
                    assert(encode_utf8(sep@) == encode_utf8(finds[i as int].0));
                    encode_utf8_decode_utf8(sep@);
                    encode_utf8_decode_utf8(finds[i as int].0);
                    assert(sep@ == finds[i as int].0);
                }
                let ghost old_pieces = pieces.deep_view();
                let ghost old_seps = seps.deep_view();
                pieces.push(piece.to_owned());
                seps.push(sep.to_owned());
                proof {
                    let np = pieces.deep_view();
                    let ns = seps.deep_view();
                    assert(forall|j: int| 0 <= j < i ==> np[j] == old_pieces[j]);
                    assert(forall|j: int| 0 <= j < i ==> ns[j] == old_seps[j]);
                    lemma_zipcat_prefix(old_pieces, old_seps, np, ns, i as int);
                    assert(np[i as int] == piece@);
                    assert(ns[i as int] == sep@);
                    assert(zipcat(np, ns, i as int + 1) == zipcat(np, ns, i as int) + piece@
                        + sep@);
                    assert(subject@ =~= zipcat(np, ns, i as int + 1) + r2@);
                    // the new piece is the gap before match i
                    assert(piece@ == decode_utf8(sbytes.subrange(gap_start(finds, i as int),
                        finds[i as int].1)));
                    assert(np[i as int] == gap_pieces(sbytes, finds)[i as int]);
                }
                rest = r2;
                last = end;
                i = i + 1;
            }
            let ghost old_pieces = pieces.deep_view();
            pieces.push(rest.to_owned());
            proof {
                let np = pieces.deep_view();
                let ns = seps.deep_view();
                let n = finds.len() as int;
                assert(forall|j: int| 0 <= j < n ==> np[j] == old_pieces[j]);
                lemma_zipcat_prefix(old_pieces, ns, np, ns, n);
                encode_utf8_decode_utf8(rest@);
                assert(np[n] == rest@);
                assert(rest.spec_bytes() == sbytes.subrange(gap_start(finds, n),
                    sbytes.len() as int));
                assert(np[n] == gap_pieces(sbytes, finds)[n]);
                assert(np =~= gap_pieces(sbytes, finds));
                lemma_interleave_zipcat(np, ns);
                assert(interleave(np, ns) =~= subject@);
            }
            Some((pieces, seps))
        },
    }
}

} // verus!
