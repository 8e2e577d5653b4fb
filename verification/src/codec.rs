//! The persisted form of the history: a JSON array of records, one object
//! per record, written and read by this module. Decoding an encoded log
//! yields the log back unchanged; the round trip is proved below.

use vstd::prelude::*;
use vstd::utf8::{decode_utf8, encode_utf8, valid_utf8};
use crate::history::{Execution, ExecutionV, History};

verus! {

/// The byte for one hexadecimal digit, lower case.
pub open spec fn hex_digit(d: nat) -> u8 {
    if d < 10 {
        (0x30 + d) as u8
    } else {
        (0x61 + (d - 10)) as u8
    }
}

/// The escaped form of one byte inside a JSON string: quote and backslash
/// get a backslash escape, control bytes a `\u00XX` escape, and every
/// other byte stands for itself.
pub open spec fn esc_byte(b: u8) -> Seq<u8> {
    if b == 0x22 {
        seq![0x5cu8, 0x22u8]
    } else if b == 0x5c {
        seq![0x5cu8, 0x5cu8]
    } else if b < 0x20 {
        seq![0x5cu8, 0x75u8, 0x30u8, 0x30u8, hex_digit((b / 16) as nat), hex_digit((b % 16) as nat)]
    } else {
        seq![b]
    }
}

/// The escaped form of a byte sequence.
pub open spec fn esc_bytes(bs: Seq<u8>) -> Seq<u8>
    decreases bs.len(),
{
    if bs.len() == 0 {
        Seq::empty()
    } else {
        esc_byte(bs[0]) + esc_bytes(bs.drop_first())
    }
}

/// The JSON string literal for a text: its UTF-8 bytes, escaped, in
/// double quotes.
pub open spec fn json_string(text: Seq<char>) -> Seq<u8> {
    seq![0x22u8] + esc_bytes(encode_utf8(text)) + seq![0x22u8]
}

/// The decimal digits of `n` as bytes, most significant first.
pub open spec fn dec_bytes(n: nat) -> Seq<u8>
    decreases n,
{
    if n < 10 {
        seq![(0x30 + n) as u8]
    } else {
        dec_bytes(n / 10) + seq![(0x30 + n % 10) as u8]
    }
}

/// The JSON object for one record.
pub open spec fn record_json(e: ExecutionV) -> Seq<u8> {
    encode_utf8("  {\n    \"time\": "@) + json_string(e.time) + encode_utf8(
        ",\n    \"operation\": "@,
    ) + json_string(e.operation) + encode_utf8(",\n    \"pattern\": "@) + json_string(e.pattern)
        + encode_utf8(",\n    \"string\": "@) + json_string(e.string) + encode_utf8(
        ",\n    \"count\": "@,
    ) + dec_bytes(e.count as nat) + encode_utf8("\n  }"@)
}

/// The JSON objects for the first `n` records, separated by commas.
pub open spec fn records_json(log: Seq<ExecutionV>, n: int) -> Seq<u8>
    decreases n,
{
    if n <= 0 {
        Seq::empty()
    } else if n == 1 {
        record_json(log[0])
    } else {
        records_json(log, n - 1) + encode_utf8(",\n"@) + record_json(log[n - 1])
    }
}

/// The JSON array for a whole log.
pub open spec fn history_json(log: Seq<ExecutionV>) -> Seq<u8> {
    if log.len() == 0 {
        encode_utf8("[]"@)
    } else {
        encode_utf8("[\n"@) + records_json(log, log.len() as int) + encode_utf8("\n]"@)
    }
}

/// Whether `lit` occurs in `bs` at index `i`.
pub open spec fn has_at(bs: Seq<u8>, i: int, lit: Seq<u8>) -> bool {
    0 <= i && i + lit.len() <= bs.len() && bs.subrange(i, i + lit.len()) == lit
}

/// Consumes `lit` at index `i`: the index after it.
pub open spec fn parse_lit(bs: Seq<u8>, i: int, lit: Seq<u8>) -> Option<int> {
    if has_at(bs, i, lit) {
        Some(i + lit.len())
    } else {
        None
    }
}

/// The numeric value of a lower-case hexadecimal digit byte, or -1.
pub open spec fn hex_val(b: u8) -> int {
    if 0x30 <= b <= 0x39 {
        b - 0x30
    } else if 0x61 <= b <= 0x66 {
        b - 0x61 + 10
    } else {
        -1
    }
}

/// Parses the body of a JSON string from index `i` up to and past its
/// closing quote: the unescaped bytes and the index after the quote.
pub open spec fn parse_jchars(bs: Seq<u8>, i: int) -> Option<(Seq<u8>, int)>
    decreases bs.len() - i,
{
    if i < 0 || i >= bs.len() {
        None
    } else if bs[i] == 0x22 {
        Some((Seq::empty(), i + 1))
    } else if bs[i] == 0x5c {
        if i + 2 <= bs.len() {
            let e = bs[i + 1];
            if e == 0x22 || e == 0x5c {
                match parse_jchars(bs, i + 2) {
                    Some(r) => Some((seq![e] + r.0, r.1)),
                    None => None,
                }
            } else if e == 0x75 && i + 6 <= bs.len() {
                let h1 = hex_val(bs[i + 4]);
                let h2 = hex_val(bs[i + 5]);
                if bs[i + 2] == 0x30 && bs[i + 3] == 0x30 && h1 >= 0 && h2 >= 0 {
                    match parse_jchars(bs, i + 6) {
                        Some(r) => Some((seq![(h1 * 16 + h2) as u8] + r.0, r.1)),
                        None => None,
                    }
                } else {
                    None
                }
            } else {
                None
            }
        } else {
            None
        }
    } else {
        match parse_jchars(bs, i + 1) {
            Some(r) => Some((seq![bs[i]] + r.0, r.1)),
            None => None,
        }
    }
}

/// Parses a JSON string literal at index `i`: its unescaped bytes and the
/// index after the closing quote.
pub open spec fn parse_jstring(bs: Seq<u8>, i: int) -> Option<(Seq<u8>, int)> {
    if 0 <= i < bs.len() && bs[i] == 0x22 {
        parse_jchars(bs, i + 1)
    } else {
        None
    }
}

/// Parses a JSON string literal holding UTF-8 text.
pub open spec fn parse_text(bs: Seq<u8>, i: int) -> Option<(Seq<char>, int)> {
    match parse_jstring(bs, i) {
        Some(r) => if valid_utf8(r.0) {
            Some((decode_utf8(r.0), r.1))
        } else {
            None
        },
        None => None,
    }
}

/// Whether `b` is a decimal digit byte.
pub open spec fn is_digit(b: u8) -> bool {
    0x30 <= b <= 0x39
}

/// The first index at or after `i` holding no decimal digit.
pub open spec fn digits_end(bs: Seq<u8>, i: int) -> int
    decreases bs.len() - i,
{
    if 0 <= i < bs.len() && is_digit(bs[i]) {
        digits_end(bs, i + 1)
    } else {
        i
    }
}

/// The value of the decimal digits at indices `i` up to `j`.
pub open spec fn digits_value(bs: Seq<u8>, i: int, j: int) -> int
    decreases j - i,
{
    if i < j {
        digits_value(bs, i, j - 1) * 10 + (bs[j - 1] - 0x30)
    } else {
        0
    }
}

/// Parses a decimal count at index `i`: at least one digit, with a value
/// that fits the count field.
pub open spec fn parse_count(bs: Seq<u8>, i: int) -> Option<(u32, int)> {
    let j = digits_end(bs, i);
    if i < j && digits_value(bs, i, j) <= u32::MAX {
        Some((digits_value(bs, i, j) as u32, j))
    } else {
        None
    }
}

/// Parses one record object at index `i`.
pub open spec fn parse_record(bs: Seq<u8>, i: int) -> Option<(ExecutionV, int)> {
    match parse_lit(bs, i, encode_utf8("  {\n    \"time\": "@)) {
        None => None,
        Some(i1) => match parse_text(bs, i1) {
            None => None,
            Some((time, i2)) => match parse_lit(bs, i2, encode_utf8(",\n    \"operation\": "@)) {
                None => None,
                Some(i3) => match parse_text(bs, i3) {
                    None => None,
                    Some((operation, i4)) => match parse_lit(
                        bs,
                        i4,
                        encode_utf8(",\n    \"pattern\": "@),
                    ) {
                        None => None,
                        Some(i5) => match parse_text(bs, i5) {
                            None => None,
                            Some((pattern, i6)) => match parse_lit(
                                bs,
                                i6,
                                encode_utf8(",\n    \"string\": "@),
                            ) {
                                None => None,
                                Some(i7) => match parse_text(bs, i7) {
                                    None => None,
                                    Some((string, i8)) => match parse_lit(
                                        bs,
                                        i8,
                                        encode_utf8(",\n    \"count\": "@),
                                    ) {
                                        None => None,
                                        Some(i9) => match parse_count(bs, i9) {
                                            None => None,
                                            Some((count, i10)) => match parse_lit(
                                                bs,
                                                i10,
                                                encode_utf8("\n  }"@),
                                            ) {
                                                None => None,
                                                Some(i11) => Some(
                                                    (
                                                        ExecutionV {
                                                            time,
                                                            operation,
                                                            pattern,
                                                            string,
                                                            count,
                                                        },
                                                        i11,
                                                    ),
                                                ),
                                            },
                                        },
                                    },
                                },
                            },
                        },
                    },
                },
            },
        },
    }
}

/// Parses one or more record objects separated by commas.
pub open spec fn parse_records(bs: Seq<u8>, i: int) -> Option<(Seq<ExecutionV>, int)>
    decreases bs.len() - i,
{
    match parse_record(bs, i) {
        None => None,
        Some((e, j)) => if i < j && j + 2 <= bs.len() && has_at(bs, j, encode_utf8(",\n"@)) {
            match parse_records(bs, j + 2) {
                None => None,
                Some((rest, k)) => Some((seq![e] + rest, k)),
            }
        } else {
            Some((seq![e], j))
        },
    }
}

/// Parses a whole persisted log: the JSON array must span the entire
/// input.
pub open spec fn parse_history(bs: Seq<u8>) -> Option<Seq<ExecutionV>> {
    if bs == encode_utf8("[]"@) {
        Some(Seq::empty())
    } else {
        match parse_lit(bs, 0, encode_utf8("[\n"@)) {
            None => None,
            Some(i) => match parse_records(bs, i) {
                None => None,
                Some((log, j)) => if j + encode_utf8("\n]"@).len() == bs.len() && has_at(
                    bs,
                    j,
                    encode_utf8("\n]"@),
                ) {
                    Some(log)
                } else {
                    None
                },
            },
        }
    }
}

/// Escaping a sequence extended by one byte appends that byte's escape.
proof fn lemma_esc_snoc(bs: Seq<u8>, b: u8)
    ensures
        esc_bytes(bs.push(b)) == esc_bytes(bs) + esc_byte(b),
    decreases bs.len(),
{
    if bs.len() == 0 {
        assert(bs.push(b)[0] == b);
        assert(bs.push(b).drop_first() =~= Seq::<u8>::empty());
        assert(esc_bytes(Seq::<u8>::empty()) == Seq::<u8>::empty());
        assert(esc_bytes(bs.push(b)) == esc_byte(b) + esc_bytes(Seq::<u8>::empty()));
        assert(esc_byte(b) + Seq::<u8>::empty() =~= esc_byte(b));
        assert(esc_bytes(bs) + esc_byte(b) =~= esc_byte(b));
    } else {
        lemma_esc_snoc(bs.drop_first(), b);
        assert(bs.push(b).drop_first() =~= bs.drop_first().push(b));
        assert(bs.push(b)[0] == bs[0]);
        assert(esc_bytes(bs.push(b)) =~= esc_bytes(bs) + esc_byte(b));
    }
}

/// If `x` occurs in `bs` at `i`, each element of `x` is at its offset.
proof fn lemma_seq_at(bs: Seq<u8>, i: int, x: Seq<u8>)
    requires
        0 <= i,
        i + x.len() <= bs.len(),
        bs.subrange(i, i + x.len()) == x,
    ensures
        forall|k: int| 0 <= k < x.len() ==> bs[i + k] == #[trigger] x[k],
{
    assert(forall|k: int|
        0 <= k < x.len() ==> #[trigger] x[k] == bs.subrange(i, i + x.len())[k]);
}

/// If a concatenation occurs in `bs` at `i`, each half occurs at its
/// offset.
proof fn lemma_concat_split(bs: Seq<u8>, i: int, a: Seq<u8>, b: Seq<u8>)
    requires
        0 <= i,
        i + a.len() + b.len() <= bs.len(),
        bs.subrange(i, i + a.len() + b.len()) == a + b,
    ensures
        bs.subrange(i, i + a.len()) == a,
        bs.subrange(i + a.len(), i + a.len() + b.len()) == b,
{
    lemma_seq_at(bs, i, a + b);
    assert(forall|k: int| 0 <= k < a.len() ==> bs[i + k] == #[trigger] a[k]) by {
        assert(forall|k: int| 0 <= k < a.len() ==> (a + b)[k] == #[trigger] a[k]);
    }
    assert(forall|k: int| 0 <= k < b.len() ==> bs[i + a.len() + k] == #[trigger] b[k]) by {
        assert(forall|k: int| 0 <= k < b.len() ==> (a + b)[a.len() + k] == #[trigger] b[k]);
    }
    assert(bs.subrange(i, i + a.len()) =~= a);
    assert(bs.subrange(i + a.len(), i + a.len() + b.len()) =~= b);
}

/// Reading a hexadecimal digit back yields the value it encodes.
proof fn lemma_hex_val_digit(d: nat)
    requires
        d < 16,
    ensures
        hex_val(hex_digit(d)) == d,
{
}

/// The escape of a byte never begins with a quote, and a plain byte
/// stands alone.
proof fn lemma_esc_byte_shape(b: u8)
    ensures
        esc_byte(b).len() >= 1,
        esc_byte(b)[0] != 0x22,
        b != 0x22 && b != 0x5c && b >= 0x20 ==> esc_byte(b) == seq![b],
{
}

/// Parsing the escaped form of `x` followed by a closing quote yields `x`
/// and lands just past the quote.
proof fn lemma_parse_jchars_of_escaped(bs: Seq<u8>, i: int, x: Seq<u8>)
    requires
        0 <= i,
        i + esc_bytes(x).len() + 1 <= bs.len(),
        bs.subrange(i, i + esc_bytes(x).len()) == esc_bytes(x),
        bs[i + esc_bytes(x).len()] == 0x22,
    ensures
        parse_jchars(bs, i) == Some((x, i + esc_bytes(x).len() + 1)),
    decreases x.len(),
{
    if x.len() == 0 {
        assert(bs[i] == 0x22);
    } else {
        let b = x[0];
        let e0 = esc_byte(b);
        let rest = esc_bytes(x.drop_first());
        assert(esc_bytes(x) == e0 + rest);
        let l0 = e0.len() as int;
        lemma_concat_split(bs, i, e0, rest);
        lemma_seq_at(bs, i, e0);
        assert(bs[i + l0 + rest.len()] == 0x22);
        lemma_parse_jchars_of_escaped(bs, i + l0, x.drop_first());
        lemma_esc_byte_shape(b);
        if b == 0x22 {
            assert(bs[i] == e0[0] && bs[i + 1] == e0[1]);
            assert(seq![b] + x.drop_first() =~= x);
        } else if b == 0x5c {
            assert(bs[i] == e0[0] && bs[i + 1] == e0[1]);
            assert(seq![b] + x.drop_first() =~= x);
        } else if b < 0x20 {
            assert(bs[i] == e0[0] && bs[i + 1] == e0[1] && bs[i + 2] == e0[2] && bs[i + 3]
                == e0[3] && bs[i + 4] == e0[4] && bs[i + 5] == e0[5]);
            lemma_hex_val_digit((b / 16) as nat);
            lemma_hex_val_digit((b % 16) as nat);
            assert(b / 16 * 16 + b % 16 == b) by (nonlinear_arith);
            assert(seq![b] + x.drop_first() =~= x);
        } else {
            assert(bs[i] == e0[0]);
            assert(b != 0x22 && b != 0x5c);
            assert(seq![b] + x.drop_first() =~= x);
        }
    }
}

/// Parsing the JSON string literal for `t` yields `t` back.
proof fn lemma_parse_text_of_json_string(bs: Seq<u8>, i: int, t: Seq<char>)
    requires
        0 <= i,
        i + json_string(t).len() <= bs.len(),
        bs.subrange(i, i + json_string(t).len()) == json_string(t),
    ensures
        parse_text(bs, i) == Some((t, i + json_string(t).len())),
{
    let x = encode_utf8(t);
    let js = json_string(t);
    assert(js.len() == esc_bytes(x).len() + 2);
    lemma_seq_at(bs, i, js);
    assert(bs[i] == js[0]);
    assert(js[0] == 0x22);
    assert(bs.subrange(i + 1, i + 1 + esc_bytes(x).len()) =~= esc_bytes(x)) by {
        assert(forall|k: int|
            0 <= k < esc_bytes(x).len() ==> #[trigger] esc_bytes(x)[k] == js[1 + k]);
    }
    assert(bs[i + 1 + esc_bytes(x).len()] == js[js.len() - 1]);
    assert(js[js.len() - 1] == 0x22);
    lemma_parse_jchars_of_escaped(bs, i + 1, x);
    vstd::utf8::encode_utf8_valid_utf8(t);
    vstd::utf8::encode_utf8_decode_utf8(t);
}

/// Every byte of a decimal rendering is a digit.
proof fn lemma_dec_bytes_digits(n: nat)
    ensures
        dec_bytes(n).len() >= 1,
        forall|k: int| 0 <= k < dec_bytes(n).len() ==> is_digit(#[trigger] dec_bytes(n)[k]),
    decreases n,
{
    if n >= 10 {
        lemma_dec_bytes_digits(n / 10);
    }
}

/// A digit run ends exactly where the digits end.
proof fn lemma_digits_end_range(bs: Seq<u8>, i: int, j: int)
    requires
        0 <= i <= j <= bs.len(),
        forall|k: int| i <= k < j ==> is_digit(#[trigger] bs[k]),
        j == bs.len() || !is_digit(bs[j]),
    ensures
        digits_end(bs, i) == j,
    decreases j - i,
{
    if i < j {
        lemma_digits_end_range(bs, i + 1, j);
    }
}

/// Reading a decimal rendering back yields the value it encodes.
proof fn lemma_digits_value_of_dec(bs: Seq<u8>, i: int, n: nat)
    requires
        0 <= i,
        i + dec_bytes(n).len() <= bs.len(),
        bs.subrange(i, i + dec_bytes(n).len()) == dec_bytes(n),
    ensures
        digits_value(bs, i, i + dec_bytes(n).len()) == n,
    decreases n,
{
    let l = dec_bytes(n).len() as int;
    lemma_seq_at(bs, i, dec_bytes(n));
    if n < 10 {
        assert(bs[i] == dec_bytes(n)[0]);
        assert(digits_value(bs, i, i + 1) == digits_value(bs, i, i) * 10 + (bs[i] - 0x30));
    } else {
        let lq = dec_bytes(n / 10).len() as int;
        assert(dec_bytes(n) == dec_bytes(n / 10) + seq![(0x30 + n % 10) as u8]);
        assert(l == lq + 1);
        lemma_concat_split(bs, i, dec_bytes(n / 10), seq![(0x30 + n % 10) as u8]);
        lemma_digits_value_of_dec(bs, i, n / 10);
        assert(bs[i + l - 1] == dec_bytes(n)[l - 1]);
        assert(dec_bytes(n)[l - 1] == (0x30 + n % 10) as u8);
        assert(digits_value(bs, i, i + l) == digits_value(bs, i, i + lq) * 10 + (bs[i + l - 1]
            - 0x30));
        assert(n / 10 * 10 + n % 10 == n) by (nonlinear_arith);
    }
}

/// Parsing a decimal count rendering yields the count back.
proof fn lemma_parse_count_of_dec(bs: Seq<u8>, i: int, n: u32)
    requires
        0 <= i,
        i + dec_bytes(n as nat).len() <= bs.len(),
        bs.subrange(i, i + dec_bytes(n as nat).len()) == dec_bytes(n as nat),
        i + dec_bytes(n as nat).len() == bs.len() || !is_digit(bs[i + dec_bytes(n as nat).len()]),
    ensures
        parse_count(bs, i) == Some((n, i + dec_bytes(n as nat).len())),
{
    let l = dec_bytes(n as nat).len() as int;
    lemma_dec_bytes_digits(n as nat);
    lemma_seq_at(bs, i, dec_bytes(n as nat));
    assert forall|k: int| i <= k < i + l implies is_digit(#[trigger] bs[k]) by {
        assert(bs[k] == dec_bytes(n as nat)[k - i]);
    }
    lemma_digits_end_range(bs, i, i + l);
    lemma_digits_value_of_dec(bs, i, n as nat);
}

/// The byte values of the short punctuation tokens of the format.
proof fn lemma_token_bytes()
    ensures
        encode_utf8("[]"@) =~= seq![0x5bu8, 0x5du8],
        encode_utf8("[\n"@) =~= seq![0x5bu8, 0x0au8],
        encode_utf8(",\n"@) =~= seq![0x2cu8, 0x0au8],
        encode_utf8("\n]"@) =~= seq![0x0au8, 0x5du8],
        encode_utf8("\n  }"@) =~= seq![0x0au8, 0x20u8, 0x20u8, 0x7du8],
{
    broadcast use vstd::utf8::is_ascii_chars_encode_utf8;

    reveal_strlit("[]");
    reveal_strlit("[\n");
    reveal_strlit(",\n");
    reveal_strlit("\n]");
    reveal_strlit("\n  }");
    assert(vstd::utf8::is_ascii_chars("[]"@));
    assert(vstd::utf8::is_ascii_chars("[\n"@));
    assert(vstd::utf8::is_ascii_chars(",\n"@));
    assert(vstd::utf8::is_ascii_chars("\n]"@));
    assert(vstd::utf8::is_ascii_chars("\n  }"@));
}

/// A record object is at least two bytes long.
proof fn lemma_record_json_len(e: ExecutionV)
    ensures
        record_json(e).len() >= 2,
{
    lemma_dec_bytes_digits(e.count as nat);
}

/// Parsing the JSON object for a record yields the record back.
#[verifier::rlimit(100)]
proof fn lemma_parse_record_of_json(bs: Seq<u8>, i: int, e: ExecutionV)
    requires
        0 <= i,
        i + record_json(e).len() <= bs.len(),
        bs.subrange(i, i + record_json(e).len()) == record_json(e),
    ensures
        parse_record(bs, i) == Some((e, i + record_json(e).len())),
{
    lemma_token_bytes();
    let t1 = encode_utf8("  {\n    \"time\": "@);
    let s1 = json_string(e.time);
    let t2 = encode_utf8(",\n    \"operation\": "@);
    let s2 = json_string(e.operation);
    let t3 = encode_utf8(",\n    \"pattern\": "@);
    let s3 = json_string(e.pattern);
    let t4 = encode_utf8(",\n    \"string\": "@);
    let s4 = json_string(e.string);
    let t5 = encode_utf8(",\n    \"count\": "@);
    let d = dec_bytes(e.count as nat);
    let t6 = encode_utf8("\n  }"@);
    let q1 = t1;
    let q2 = q1 + s1;
    let q3 = q2 + t2;
    let q4 = q3 + s2;
    let q5 = q4 + t3;
    let q6 = q5 + s3;
    let q7 = q6 + t4;
    let q8 = q7 + s4;
    let q9 = q8 + t5;
    let q10 = q9 + d;
    assert(record_json(e) == q10 + t6);
    let p1 = i + t1.len();
    let p2 = p1 + s1.len();
    let p3 = p2 + t2.len();
    let p4 = p3 + s2.len();
    let p5 = p4 + t3.len();
    let p6 = p5 + s3.len();
    let p7 = p6 + t4.len();
    let p8 = p7 + s4.len();
    let p9 = p8 + t5.len();
    let p10 = p9 + d.len();
    let p11 = p10 + t6.len();
    lemma_concat_split(bs, i, q10, t6);
    lemma_concat_split(bs, i, q9, d);
    lemma_concat_split(bs, i, q8, t5);
    lemma_concat_split(bs, i, q7, s4);
    lemma_concat_split(bs, i, q6, t4);
    lemma_concat_split(bs, i, q5, s3);
    lemma_concat_split(bs, i, q4, t3);
    lemma_concat_split(bs, i, q3, s2);
    lemma_concat_split(bs, i, q2, t2);
    lemma_concat_split(bs, i, q1, s1);
    lemma_parse_text_of_json_string(bs, p1, e.time);
    lemma_parse_text_of_json_string(bs, p3, e.operation);
    lemma_parse_text_of_json_string(bs, p5, e.pattern);
    lemma_parse_text_of_json_string(bs, p7, e.string);
    lemma_seq_at(bs, p10, t6);
    assert(bs[p10] == t6[0]);
    assert(!is_digit(bs[p10]));
    lemma_parse_count_of_dec(bs, p9, e.count);
    assert(parse_record(bs, i) == Some(
        (ExecutionV { time: e.time, operation: e.operation, pattern: e.pattern, string: e.string, count: e.count }, p11),
    ));
    assert(ExecutionV {
        time: e.time,
        operation: e.operation,
        pattern: e.pattern,
        string: e.string,
        count: e.count,
    } == e);
    assert(p11 == i + record_json(e).len());
}

/// The object list decomposed at its first record.
proof fn lemma_records_front(log: Seq<ExecutionV>, n: int)
    requires
        2 <= n <= log.len(),
    ensures
        records_json(log, n) == record_json(log[0]) + encode_utf8(",\n"@) + records_json(
            log.drop_first(),
            n - 1,
        ),
    decreases n,
{
    let sep = encode_utf8(",\n"@);
    if n == 2 {
        assert(records_json(log, 2) == records_json(log, 1) + sep + record_json(log[1]));
        assert(records_json(log.drop_first(), 1) == record_json(log.drop_first()[0]));
        assert(log.drop_first()[0] == log[1]);
    } else {
        lemma_records_front(log, n - 1);
        assert(log.drop_first()[n - 2] == log[n - 1]);
        assert(records_json(log.drop_first(), n - 1) == records_json(log.drop_first(), n - 2)
            + sep + record_json(log[n - 1]));
        assert((record_json(log[0]) + sep + records_json(log.drop_first(), n - 2)) + sep
            + record_json(log[n - 1]) =~= record_json(log[0]) + sep + records_json(
            log.drop_first(),
            n - 1,
        ));
    }
}

/// Parsing the object list for a log yields the log back, as long as no
/// comma follows it.
proof fn lemma_parse_records_of_json(bs: Seq<u8>, i: int, log: Seq<ExecutionV>)
    requires
        0 <= i,
        log.len() >= 1,
        i + records_json(log, log.len() as int).len() <= bs.len(),
        bs.subrange(i, i + records_json(log, log.len() as int).len()) == records_json(
            log,
            log.len() as int,
        ),
        i + records_json(log, log.len() as int).len() == bs.len() || bs[i + records_json(
            log,
            log.len() as int,
        ).len()] != 0x2c,
    ensures
        parse_records(bs, i) == Some((log, i + records_json(log, log.len() as int).len())),
    decreases log.len(),
{
    lemma_token_bytes();
    let sep = encode_utf8(",\n"@);
    let n = log.len() as int;
    let end = i + records_json(log, n).len();
    if log.len() == 1 {
        assert(records_json(log, 1) == record_json(log[0]));
        lemma_parse_record_of_json(bs, i, log[0]);
        lemma_record_json_len(log[0]);
        if end + 2 <= bs.len() && has_at(bs, end, sep) {
            lemma_seq_at(bs, end, sep);
            assert(bs[end] == sep[0]);
            assert(false);
        }
        assert(seq![log[0]] =~= log);
    } else {
        lemma_records_front(log, n);
        let rest = records_json(log.drop_first(), n - 1);
        assert(records_json(log, n) =~= record_json(log[0]) + (sep + rest));
        lemma_concat_split(bs, i, record_json(log[0]), sep + rest);
        let j = i + record_json(log[0]).len();
        lemma_concat_split(bs, j, sep, rest);
        lemma_parse_record_of_json(bs, i, log[0]);
        lemma_record_json_len(log[0]);
        assert(has_at(bs, j, sep));
        lemma_parse_records_of_json(bs, j + 2, log.drop_first());
        assert(seq![log[0]] + log.drop_first() =~= log);
    }
}

/// Decoding an encoded log yields the log back unchanged.
#[verifier::rlimit(100)]
pub proof fn lemma_round_trip(log: Seq<ExecutionV>)
    ensures
        parse_history(history_json(log)) == Some(log),
{
    lemma_token_bytes();
    let bs = history_json(log);
    if log.len() == 0 {
    } else {
        let topen = encode_utf8("[\n"@);
        let tclose = encode_utf8("\n]"@);
        let n = log.len() as int;
        let rj = records_json(log, n);
        assert(bs =~= topen + (rj + tclose));
        assert(bs.subrange(0, bs.len() as int) =~= bs);
        lemma_concat_split(bs, 0, topen, rj + tclose);
        lemma_concat_split(bs, 2, rj, tclose);
        lemma_record_json_len(log[0]);
        assert(rj.len() >= 2) by {
            if n >= 2 {
                lemma_records_front(log, n);
            }
        }
        assert(bs.len() >= 6);
        assert(bs != encode_utf8("[]"@));
        assert(has_at(bs, 0, topen));
        let j = 2 + rj.len() as int;
        lemma_seq_at(bs, j, tclose);
        assert(bs[j] == tclose[0]);
        lemma_parse_records_of_json(bs, 2, log);
        assert(has_at(bs, j, tclose));
    }
}

/// A successful string-body parse moves forward and stays in bounds.
proof fn lemma_parse_jchars_bounds(bs: Seq<u8>, i: int)
    ensures
        parse_jchars(bs, i) matches Some(r) ==> i < r.1 <= bs.len(),
    decreases bs.len() - i,
{
    if 0 <= i < bs.len() {
        if bs[i] == 0x5c {
            if i + 2 <= bs.len() {
                lemma_parse_jchars_bounds(bs, i + 2);
            }
            if i + 6 <= bs.len() {
                lemma_parse_jchars_bounds(bs, i + 6);
            }
        } else {
            lemma_parse_jchars_bounds(bs, i + 1);
        }
    }
}

/// The digit run starting at `i` stays in bounds and holds only digits.
proof fn lemma_digits_end_props(bs: Seq<u8>, i: int)
    requires
        0 <= i <= bs.len(),
    ensures
        i <= digits_end(bs, i) <= bs.len(),
        forall|k: int| i <= k < digits_end(bs, i) ==> is_digit(#[trigger] bs[k]),
    decreases bs.len() - i,
{
    if i < bs.len() && is_digit(bs[i]) {
        lemma_digits_end_props(bs, i + 1);
    }
}

/// A longer digit run never has a smaller value.
proof fn lemma_digits_value_monotone(bs: Seq<u8>, i: int, j1: int, j2: int)
    requires
        i <= j1 <= j2,
        forall|k: int| i <= k < j2 ==> is_digit(#[trigger] bs[k]),
    ensures
        0 <= digits_value(bs, i, j1) <= digits_value(bs, i, j2),
    decreases j2 - i, j2 - j1,
{
    if j1 < j2 {
        lemma_digits_value_monotone(bs, i, j1, j2 - 1);
        assert(digits_value(bs, i, j2) == digits_value(bs, i, j2 - 1) * 10 + (bs[j2 - 1] - 0x30));
        assert(digits_value(bs, i, j2 - 1) * 10 >= digits_value(bs, i, j2 - 1)) by (nonlinear_arith)
            requires digits_value(bs, i, j2 - 1) >= 0;
    } else if i < j1 {
        lemma_digits_value_monotone(bs, i, j1 - 1, j1 - 1);
        assert(digits_value(bs, i, j1) == digits_value(bs, i, j1 - 1) * 10 + (bs[j1 - 1] - 0x30));
        assert(digits_value(bs, i, j1 - 1) * 10 >= 0) by (nonlinear_arith)
            requires digits_value(bs, i, j1 - 1) >= 0;
    }
}

/// A successful record parse moves forward and stays in bounds.
proof fn lemma_parse_record_bounds(bs: Seq<u8>, i: int)
    ensures
        parse_record(bs, i) matches Some(r) ==> i < r.1 <= bs.len(),
{
    if parse_record(bs, i) is Some {
        let i1 = parse_lit(bs, i, encode_utf8("  {\n    \"time\": "@)).unwrap();
        lemma_parse_jchars_bounds(bs, i1 + 1);
        let i2 = parse_text(bs, i1).unwrap().1;
        let i3 = parse_lit(bs, i2, encode_utf8(",\n    \"operation\": "@)).unwrap();
        lemma_parse_jchars_bounds(bs, i3 + 1);
        let i4 = parse_text(bs, i3).unwrap().1;
        let i5 = parse_lit(bs, i4, encode_utf8(",\n    \"pattern\": "@)).unwrap();
        lemma_parse_jchars_bounds(bs, i5 + 1);
        let i6 = parse_text(bs, i5).unwrap().1;
        let i7 = parse_lit(bs, i6, encode_utf8(",\n    \"string\": "@)).unwrap();
        lemma_parse_jchars_bounds(bs, i7 + 1);
        let i8 = parse_text(bs, i7).unwrap().1;
        let i9 = parse_lit(bs, i8, encode_utf8(",\n    \"count\": "@)).unwrap();
        lemma_digits_end_props(bs, i9);
    }
}

/// Appends a copy of the given bytes.
fn push_bytes(out: &mut Vec<u8>, s: &[u8])
    ensures
        final(out)@ == old(out)@ + s@,
{
    let ghost start = out@;
    let mut i: usize = 0;
    while i < s.len()
        invariant
            i <= s@.len(),
            out@ == start + s@.take(i as int),
        decreases s@.len() - i,
    {
        out.push(s[i]);
        proof {
            assert(out@ =~= start + s@.take(i as int + 1));
        }
        i = i + 1;
    }
    proof {
        assert(out@ =~= start + s@);
    }
}

/// Appends the UTF-8 bytes of a string.
fn push_lit(out: &mut Vec<u8>, s: &str)
    ensures
        final(out)@ == old(out)@ + encode_utf8(s@),
{
    push_bytes(out, s.as_bytes());
}

/// Appends the escaped form of the given bytes.
fn push_escaped(out: &mut Vec<u8>, s: &[u8])
    ensures
        final(out)@ == old(out)@ + esc_bytes(s@),
{
    let ghost start = out@;
    let mut i: usize = 0;
    while i < s.len()
        invariant
            i <= s@.len(),
            out@ == start + esc_bytes(s@.take(i as int)),
        decreases s@.len() - i,
    {
        let b = s[i];
        if b == 0x22 {
            out.push(0x5c);
            out.push(0x22);
        } else if b == 0x5c {
            out.push(0x5c);
            out.push(0x5c);
        } else if b < 0x20 {
            out.push(0x5c);
            out.push(0x75);
            out.push(0x30);
            out.push(0x30);
            let hi = b / 16;
            let lo = b % 16;
            out.push(if hi < 10 { 0x30 + hi } else { 0x61 + (hi - 10) });
            out.push(if lo < 10 { 0x30 + lo } else { 0x61 + (lo - 10) });
        } else {
            out.push(b);
        }
        proof {
            lemma_esc_snoc(s@.take(i as int), b);
            assert(s@.take(i as int).push(b) =~= s@.take(i as int + 1));
            assert(out@ =~= start + esc_bytes(s@.take(i as int + 1)));
        }
        i = i + 1;
    }
    proof {
        assert(s@.take(s@.len() as int) =~= s@);
    }
}

/// Appends the JSON string literal for `s`.
fn push_json_string(out: &mut Vec<u8>, s: &str)
    ensures
        final(out)@ == old(out)@ + json_string(s@),
{
    out.push(0x22);
    push_escaped(out, s.as_bytes());
    out.push(0x22);
    proof {
        assert(out@ =~= old(out)@ + json_string(s@));
    }
}

/// Appends the decimal digits of `n`.
fn push_dec(out: &mut Vec<u8>, n: u32)
    ensures
        final(out)@ == old(out)@ + dec_bytes(n as nat),
    decreases n,
{
    if n < 10 {
        out.push(0x30 + (n as u8));
        proof {
            assert(out@ =~= old(out)@ + dec_bytes(n as nat));
        }
    } else {
        push_dec(out, n / 10);
        out.push(0x30 + ((n % 10) as u8));
        proof {
            assert(out@ =~= old(out)@ + dec_bytes(n as nat));
        }
    }
}

/// Appends the JSON object for one record.
fn push_record(out: &mut Vec<u8>, e: &crate::history::Execution)
    ensures
        final(out)@ == old(out)@ + record_json(e@),
{
    push_lit(out, "  {\n    \"time\": ");
    push_json_string(out, e.time.as_str());
    push_lit(out, ",\n    \"operation\": ");
    push_json_string(out, e.operation.as_str());
    push_lit(out, ",\n    \"pattern\": ");
    push_json_string(out, e.pattern.as_str());
    push_lit(out, ",\n    \"string\": ");
    push_json_string(out, e.string.as_str());
    push_lit(out, ",\n    \"count\": ");
    push_dec(out, e.count);
    push_lit(out, "\n  }");
    proof {
        assert(out@ =~= old(out)@ + record_json(e@));
    }
}

/// Relies on `String::from_utf8` (std): it returns `Ok` exactly for valid
/// UTF-8 input, and the returned string holds exactly the input bytes.
#[verifier::external_body]
fn bytes_to_string(v: Vec<u8>) -> (r: Option<String>)
    ensures
        r is Some <==> valid_utf8(v@),
        r matches Some(s) ==> encode_utf8(s@) == v@,
{
    match String::from_utf8(v) {
        Ok(s) => Some(s),
        Err(_) => None,
    }
}

/// Consumes `lit` at index `i` of `bs`, if it occurs there.
fn match_lit(bs: &[u8], i: usize, lit: &[u8]) -> (r: Option<usize>)
    ensures
        r is Some <==> parse_lit(bs@, i as int, lit@) is Some,
        r matches Some(j) ==> parse_lit(bs@, i as int, lit@) == Some(j as int),
{
    let n = bs.len();
    if i <= n && n - i >= lit.len() {
        let mut k: usize = 0;
        while k < lit.len()
            invariant
                n == bs@.len(),
                i + lit@.len() <= n,
                k <= lit@.len(),
                forall|m: int| 0 <= m < k ==> bs@[i + m] == #[trigger] lit@[m],
            decreases lit@.len() - k,
        {
            if bs[i + k] != lit[k] {
                proof {
                    assert(bs@.subrange(i as int, i + lit@.len())[k as int] == bs@[i + k]);
                    assert(bs@.subrange(i as int, i + lit@.len()) != lit@);
                }
                return None;
            }
            k = k + 1;
        }
        proof {
            assert(bs@.subrange(i as int, i + lit@.len()) =~= lit@);
        }
        Some(i + lit.len())
    } else {
        None
    }
}

/// The value of a lower-case hexadecimal digit byte, or -1.
fn hex_val_of(b: u8) -> (r: i8)
    ensures
        r as int == hex_val(b),
{
    if 0x30 <= b && b <= 0x39 {
        (b - 0x30) as i8
    } else if 0x61 <= b && b <= 0x66 {
        (b - 0x61 + 10) as i8
    } else {
        -1
    }
}

/// Reads the body of a JSON string up to and past its closing quote.
fn read_jchars(bs: &[u8], i: usize) -> (r: Option<(Vec<u8>, usize)>)
    ensures
        r is Some <==> parse_jchars(bs@, i as int) is Some,
        r matches Some((v, j)) ==> parse_jchars(bs@, i as int) == Some((v@, j as int)),
    decreases bs@.len() - i,
{
    if i >= bs.len() {
        None
    } else if bs[i] == 0x22 {
        let v: Vec<u8> = Vec::new();
        proof {
            assert(v@ =~= Seq::<u8>::empty());
        }
        Some((v, i + 1))
    } else if bs[i] == 0x5c {
        if bs.len() - i >= 2 {
            let e = bs[i + 1];
            if e == 0x22 || e == 0x5c {
                match read_jchars(bs, i + 2) {
                    Some((mut v, j)) => {
                        v.insert(0, e);
                        proof {
                            let sp = parse_jchars(bs@, i as int).unwrap();
                            assert(v@ =~= sp.0);
                        }
                        Some((v, j))
                    },
                    None => None,
                }
            } else if e == 0x75 && bs.len() - i >= 6 {
                let c2 = bs[i + 2];
                let c3 = bs[i + 3];
                let h1 = hex_val_of(bs[i + 4]);
                let h2 = hex_val_of(bs[i + 5]);
                if c2 == 0x30 && c3 == 0x30 && h1 >= 0 && h2 >= 0 {
                    match read_jchars(bs, i + 6) {
                        Some((mut v, j)) => {
                            let b = (h1 as u8) * 16 + (h2 as u8);
                            v.insert(0, b);
                            proof {
                                let sp = parse_jchars(bs@, i as int).unwrap();
                                assert(v@ =~= sp.0);
                            }
                            Some((v, j))
                        },
                        None => None,
                    }
                } else {
                    None
                }
            } else {
                None
            }
        } else {
            None
        }
    } else {
        match read_jchars(bs, i + 1) {
            Some((mut v, j)) => {
                v.insert(0, bs[i]);
                proof {
                    let sp = parse_jchars(bs@, i as int).unwrap();
                    assert(v@ =~= sp.0);
                }
                Some((v, j))
            },
            None => None,
        }
    }
}

/// Reads a JSON string literal holding UTF-8 text.
fn read_text(bs: &[u8], i: usize) -> (r: Option<(String, usize)>)
    ensures
        r is Some <==> parse_text(bs@, i as int) is Some,
        r matches Some(p) ==> parse_text(bs@, i as int) == Some((p.0@, p.1 as int)),
{
    if i < bs.len() && bs[i] == 0x22 {
        match read_jchars(bs, i + 1) {
            Some((v, j)) => {
                let ghost vb = v@;
                match bytes_to_string(v) {
                    Some(s) => {
                        proof {
                            vstd::utf8::encode_utf8_decode_utf8(s@);
                        }
                        Some((s, j))
                    },
                    None => None,
                }
            },
            None => None,
        }
    } else {
        None
    }
}

/// Reads a decimal count: at least one digit, with a value that fits.
fn read_count(bs: &[u8], i: usize) -> (r: Option<(u32, usize)>)
    ensures
        r is Some <==> parse_count(bs@, i as int) is Some,
        r matches Some(p) ==> parse_count(bs@, i as int) == Some((p.0, p.1 as int)),
{
    if i > bs.len() {
        return None;
    }
    let mut j: usize = i;
    let mut val: u64 = 0;
    while j < bs.len() && 0x30 <= bs[j] && bs[j] <= 0x39
        invariant
            i <= j <= bs@.len(),
            digits_end(bs@, i as int) == digits_end(bs@, j as int),
            forall|k: int| i <= k < j ==> is_digit(#[trigger] bs@[k]),
            val as int == digits_value(bs@, i as int, j as int),
            val <= u32::MAX,
        decreases bs@.len() - j,
    {
        let d = bs[j] - 0x30;
        let nv: u64 = val * 10 + (d as u64);
        if nv > (u32::MAX as u64) {
            proof {
                let e = digits_end(bs@, i as int);
                assert(e == digits_end(bs@, j as int + 1));
                lemma_digits_end_props(bs@, j as int + 1);
                assert(forall|k: int| i <= k < e ==> is_digit(#[trigger] bs@[k]));
                lemma_digits_value_monotone(bs@, i as int, j as int + 1, e);
                assert(digits_value(bs@, i as int, j as int + 1) == nv);
            }
            return None;
        }
        val = nv;
        j = j + 1;
    }
    proof {
        assert(digits_end(bs@, j as int) == j as int);
    }
    if j == i {
        None
    } else {
        Some((val as u32, j))
    }
}

/// Reads one record object.
fn read_record(bs: &[u8], i: usize) -> (r: Option<(Execution, usize)>)
    ensures
        r is Some <==> parse_record(bs@, i as int) is Some,
        r matches Some(p) ==> parse_record(bs@, i as int) == Some((p.0@, p.1 as int)),
{
    let i1 = match match_lit(bs, i, "  {\n    \"time\": ".as_bytes()) {
        Some(k) => k,
        None => {
            return None;
        },
    };
    let (time, i2) = match read_text(bs, i1) {
        Some(p) => p,
        None => {
            return None;
        },
    };
    let i3 = match match_lit(bs, i2, ",\n    \"operation\": ".as_bytes()) {
        Some(k) => k,
        None => {
            return None;
        },
    };
    let (operation, i4) = match read_text(bs, i3) {
        Some(p) => p,
        None => {
            return None;
        },
    };
    let i5 = match match_lit(bs, i4, ",\n    \"pattern\": ".as_bytes()) {
        Some(k) => k,
        None => {
            return None;
        },
    };
    let (pattern, i6) = match read_text(bs, i5) {
        Some(p) => p,
        None => {
            return None;
        },
    };
    let i7 = match match_lit(bs, i6, ",\n    \"string\": ".as_bytes()) {
        Some(k) => k,
        None => {
            return None;
        },
    };
    let (string, i8) = match read_text(bs, i7) {
        Some(p) => p,
        None => {
            return None;
        },
    };
    let i9 = match match_lit(bs, i8, ",\n    \"count\": ".as_bytes()) {
        Some(k) => k,
        None => {
            return None;
        },
    };
    let (count, i10) = match read_count(bs, i9) {
        Some(p) => p,
        None => {
            return None;
        },
    };
    let i11 = match match_lit(bs, i10, "\n  }".as_bytes()) {
        Some(k) => k,
        None => {
            return None;
        },
    };
    Some((Execution { time, operation, pattern, string, count }, i11))
}

/// Reads one or more record objects separated by commas.
fn read_records(bs: &[u8], i: usize) -> (r: Option<(Vec<Execution>, usize)>)
    ensures
        r is Some <==> parse_records(bs@, i as int) is Some,
        r matches Some(p) ==> parse_records(bs@, i as int) == Some((p.0.deep_view(), p.1 as int)),
    decreases bs@.len() - i,
{
    let (e, j) = match read_record(bs, i) {
        Some(p) => p,
        None => {
            return None;
        },
    };
    proof {
        lemma_parse_record_bounds(bs@, i as int);
        lemma_token_bytes();
    }
    let cont = match_lit(bs, j, ",\n".as_bytes());
    if j > i && cont.is_some() {
        match read_records(bs, j + 2) {
            Some((mut v, k)) => {
                v.insert(0, e);
                proof {
                    let sp = parse_records(bs@, i as int).unwrap();
                    assert(v.deep_view() =~= sp.0);
                }
                Some((v, k))
            },
            None => None,
        }
    } else {
        let mut v: Vec<Execution> = Vec::new();
        v.push(e);
        proof {
            let sp = parse_records(bs@, i as int).unwrap();
            assert(v.deep_view() =~= sp.0);
        }
        Some((v, j))
    }
}

/// Decodes a persisted log; `None` for anything that is not exactly an
/// encoded log.
pub fn from_json(bs: &[u8]) -> (r: Option<History>)
    ensures
        r is Some <==> parse_history(bs@) is Some,
        r matches Some(h) ==> parse_history(bs@) == Some(h@),
{
    proof {
        lemma_token_bytes();
    }
    if bs.len() == 2 && bs[0] == 0x5b && bs[1] == 0x5d {
        proof {
            assert(bs@ =~= encode_utf8("[]"@));
        }
        Some(History::new())
    } else {
        proof {
            assert(bs@ != encode_utf8("[]"@)) by {
                if bs@.len() == 2 {
                    assert(bs@[0] != 0x5b || bs@[1] != 0x5d);
                }
            }
        }
        let i = match match_lit(bs, 0, "[\n".as_bytes()) {
            Some(k) => k,
            None => {
                return None;
            },
        };
        let (v, j) = match read_records(bs, i) {
            Some(p) => p,
            None => {
                return None;
            },
        };
        if j <= bs.len() && bs.len() - j == 2 {
            match match_lit(bs, j, "\n]".as_bytes()) {
                Some(_) => Some(History::from_records(v)),
                None => None,
            }
        } else {
            None
        }
    }
}

/// Encodes a whole log as pretty-printed JSON.
#[verifier::loop_isolation(false)]
pub fn to_json(h: &History) -> (r: Vec<u8>)
    ensures
        r@ == history_json(h@),
{
    let mut out: Vec<u8> = Vec::new();
    let n = h.len();
    if n == 0 {
        push_lit(&mut out, "[]");
        proof {
            assert(out@ =~= history_json(h@));
        }
        out
    } else {
        push_lit(&mut out, "[\n");
        let mut i: usize = 0;
        while i < n
            invariant
                i <= h@.len(),
                out@ == encode_utf8("[\n"@) + records_json(h@, i as int),
            decreases h@.len() - i,
        {
            if i > 0 {
                push_lit(&mut out, ",\n");
            }
            let e = h.get(i);
            push_record(&mut out, e);
            proof {
                assert(out@ =~= encode_utf8("[\n"@) + records_json(h@, i as int + 1));
            }
            i = i + 1;
        }
        push_lit(&mut out, "\n]");
        proof {
            assert(out@ =~= history_json(h@));
        }
        out
    }
}

} // verus!
