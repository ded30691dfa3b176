//! The cached-entry blob format.
//!
//! A fully merged record set is persisted as one self-contained byte blob:
//! a record count, then each record as its timestamp, its ingestion time,
//! its character count, and its characters. Integers are little-endian;
//! timestamps are two's-complement in eight bytes; characters are Unicode
//! scalar values in four bytes. Decoding checks every field and accepts a
//! blob exactly as far as it is a valid encoding; a decoded record set
//! re-encodes to the same bytes, and encoding then decoding returns the
//! record set unchanged.

use vstd::prelude::*;
use crate::records::{Record, RecordModel};

verus! {

pub const TWO_POW_63: u64 = 0x8000_0000_0000_0000;

/// 256 to the `n`-th power: the number of values `n` bytes can hold.
pub open spec fn pow256(n: nat) -> nat
    decreases n,
{
    if n == 0 {
        1
    } else {
        256 * pow256((n - 1) as nat)
    }
}

/// The `n`-byte little-endian encoding of `x`.
pub open spec fn le_bytes(x: nat, n: nat) -> Seq<u8>
    decreases n,
{
    if n == 0 {
        Seq::empty()
    } else {
        seq![(x % 256) as u8] + le_bytes(x / 256, (n - 1) as nat)
    }
}

/// The number a little-endian byte run denotes.
pub open spec fn le_int(b: Seq<u8>) -> nat
    decreases b.len(),
{
    if b.len() == 0 {
        0
    } else {
        b[0] as nat + 256 * le_int(b.skip(1))
    }
}

/// The byte-count bounds the format relies on, written out.
pub proof fn lemma_pow256_vals()
    ensures
        pow256(4) == 0x1_0000_0000,
        pow256(8) == 0x1_0000_0000_0000_0000,
{
    assert(pow256(0) == 1);
    assert(pow256(1) == 256);
    assert(pow256(2) == 0x1_0000);
    assert(pow256(3) == 0x100_0000);
    assert(pow256(4) == 0x1_0000_0000);
    assert(pow256(5) == 0x100_0000_0000);
    assert(pow256(6) == 0x1_0000_0000_0000);
    assert(pow256(7) == 0x100_0000_0000_0000);
    assert(pow256(8) == 0x1_0000_0000_0000_0000);
}

pub proof fn lemma_le_bytes_len(x: nat, n: nat)
    ensures
        le_bytes(x, n).len() == n,
    decreases n,
{
    if n > 0 {
        lemma_le_bytes_len(x / 256, (n - 1) as nat);
    }
}

/// Encoding then reading back returns the number, as long as it fits.
pub proof fn lemma_le_roundtrip(x: nat, n: nat)
    requires
        x < pow256(n),
    ensures
        le_int(le_bytes(x, n)) == x,
    decreases n,
{
    if n > 0 {
        lemma_le_bytes_len(x / 256, (n - 1) as nat);
        assert(le_bytes(x, n).skip(1) =~= le_bytes(x / 256, (n - 1) as nat));
        assert(x / 256 < pow256((n - 1) as nat)) by {
            assert(x < 256 * pow256((n - 1) as nat));
        }
        lemma_le_roundtrip(x / 256, (n - 1) as nat);
    }
}

/// A byte run of length `n` denotes a number below `256^n`.
pub proof fn lemma_le_int_bound(b: Seq<u8>)
    ensures
        le_int(b) < pow256(b.len()),
    decreases b.len(),
{
    if b.len() > 0 {
        lemma_le_int_bound(b.skip(1));
    }
}

/// The timestamp field: two's-complement in eight bytes.
pub open spec fn i64_to_field(x: int) -> nat {
    if x >= 0 {
        x as nat
    } else {
        (x + 0x1_0000_0000_0000_0000) as nat
    }
}

/// Reads the timestamp field back.
pub open spec fn field_to_i64(u: nat) -> int {
    if u < 0x8000_0000_0000_0000 {
        u as int
    } else {
        u - 0x1_0000_0000_0000_0000
    }
}

/// A record model that an `i64`-timestamped record of machine-bounded text
/// length can denote.
pub open spec fn model_wf(m: RecordModel) -> bool {
    &&& i64::MIN <= m.timestamp <= i64::MAX
    &&& i64::MIN <= m.ingested_at <= i64::MAX
    &&& m.text.len() < pow256(8)
}

pub proof fn lemma_i64_field_roundtrip(x: int)
    requires
        i64::MIN <= x <= i64::MAX,
    ensures
        i64_to_field(x) < pow256(8),
        field_to_i64(i64_to_field(x)) == x,
{
    lemma_pow256_vals();
}

/// The four-byte encoding of one character.
pub open spec fn encode_char(c: char) -> Seq<u8> {
    le_bytes(c as u32 as nat, 4)
}

/// The text section: each character in order.
pub open spec fn encode_text(t: Seq<char>) -> Seq<u8>
    decreases t.len(),
{
    if t.len() == 0 {
        Seq::empty()
    } else {
        encode_char(t[0]) + encode_text(t.skip(1))
    }
}

/// One record: timestamp, ingestion time, character count, characters.
pub open spec fn encode_record(m: RecordModel) -> Seq<u8> {
    le_bytes(i64_to_field(m.timestamp), 8) + le_bytes(i64_to_field(m.ingested_at), 8) + le_bytes(
        m.text.len(),
        8,
    ) + encode_text(m.text)
}

/// Every record in order.
pub open spec fn encode_records(ms: Seq<RecordModel>) -> Seq<u8>
    decreases ms.len(),
{
    if ms.len() == 0 {
        Seq::empty()
    } else {
        encode_record(ms[0]) + encode_records(ms.skip(1))
    }
}

/// The whole blob: the record count, then the records.
pub open spec fn encode_blob(ms: Seq<RecordModel>) -> Seq<u8> {
    le_bytes(ms.len(), 8) + encode_records(ms)
}

// ----------------------------------------------------------------------
// The spec-level decoder: a total function from bytes to the record set
// they encode, if any. Each parser consumes a prefix and returns the
// value and the remaining bytes.
// ----------------------------------------------------------------------

/// Whether a four-byte field holds a Unicode scalar value.
pub open spec fn scalar_ok(u: nat) -> bool {
    u < 0xD800 || (0xE000 <= u && u <= 0x10FFFF)
}

/// Parses `m` characters.
pub open spec fn parse_chars(b: Seq<u8>, m: nat) -> Option<(Seq<char>, Seq<u8>)>
    decreases m,
{
    if m == 0 {
        Some((Seq::empty(), b))
    } else if b.len() < 4 {
        None
    } else {
        let u = le_int(b.take(4));
        if !scalar_ok(u) {
            None
        } else {
            match parse_chars(b.skip(4), (m - 1) as nat) {
                Some((cs, rest)) => Some((seq![(u as u32) as char] + cs, rest)),
                None => None,
            }
        }
    }
}

/// Parses one record.
pub open spec fn parse_record(b: Seq<u8>) -> Option<(RecordModel, Seq<u8>)> {
    if b.len() < 24 {
        None
    } else {
        let ts = field_to_i64(le_int(b.take(8)));
        let ing = field_to_i64(le_int(b.skip(8).take(8)));
        let m = le_int(b.skip(16).take(8));
        match parse_chars(b.skip(24), m) {
            Some((cs, rest)) => Some(
                (RecordModel { timestamp: ts, text: cs, ingested_at: ing }, rest),
            ),
            None => None,
        }
    }
}

/// Parses `n` records.
pub open spec fn parse_records(b: Seq<u8>, n: nat) -> Option<(Seq<RecordModel>, Seq<u8>)>
    decreases n,
{
    if n == 0 {
        Some((Seq::empty(), b))
    } else {
        match parse_record(b) {
            Some((m, rest)) => match parse_records(rest, (n - 1) as nat) {
                Some((ms, rest2)) => Some((seq![m] + ms, rest2)),
                None => None,
            },
            None => None,
        }
    }
}

/// The record set a blob denotes: the count, then exactly that many
/// records, with nothing left over.
pub open spec fn decode_blob(b: Seq<u8>) -> Option<Seq<RecordModel>> {
    if b.len() < 8 {
        None
    } else {
        let n = le_int(b.take(8));
        match parse_records(b.skip(8), n) {
            Some((ms, rest)) => if rest.len() == 0 {
                Some(ms)
            } else {
                None
            },
            None => None,
        }
    }
}

// ----------------------------------------------------------------------
// Round trip: decoding an encoded blob returns the record set unchanged.
// ----------------------------------------------------------------------

proof fn lemma_parse_chars_of_encoding(t: Seq<char>, tail: Seq<u8>)
    ensures
        parse_chars(encode_text(t) + tail, t.len()) == Some::<(Seq<char>, Seq<u8>)>((t, tail)),
    decreases t.len(),
{
    if t.len() == 0 {
        assert(encode_text(t) + tail =~= tail);
        assert(parse_chars(tail, 0) == Some::<(Seq<char>, Seq<u8>)>((Seq::empty(), tail)));
        assert(t =~= Seq::<char>::empty());
    } else {
        let c = t[0];
        let u: nat = c as u32 as nat;
        let b = encode_text(t) + tail;
        vstd::utf8::char_is_scalar(c);
        assert(u < pow256(4)) by {
            lemma_pow256_vals();
        }
        lemma_le_roundtrip(u, 4);
        lemma_le_bytes_len(u, 4);
        assert(b.take(4) =~= le_bytes(u, 4));
        assert(le_int(b.take(4)) == u);
        assert(scalar_ok(u)) by {
            assert(vstd::utf8::is_scalar(c as u32));
        }
        assert(b.skip(4) =~= encode_text(t.skip(1)) + tail);
        lemma_parse_chars_of_encoding(t.skip(1), tail);
        vstd::utf8::char_u32_cast(c, c as u32);
        assert(seq![(u as u32) as char] + t.skip(1) =~= t);
    }
}

proof fn lemma_parse_record_of_encoding(m: RecordModel, tail: Seq<u8>)
    requires
        model_wf(m),
    ensures
        parse_record(encode_record(m) + tail) == Some::<(RecordModel, Seq<u8>)>((m, tail)),
{
    let b = encode_record(m) + tail;
    let f_ts = i64_to_field(m.timestamp);
    let f_ing = i64_to_field(m.ingested_at);
    lemma_i64_field_roundtrip(m.timestamp);
    lemma_i64_field_roundtrip(m.ingested_at);
    lemma_le_bytes_len(f_ts, 8);
    lemma_le_bytes_len(f_ing, 8);
    lemma_le_bytes_len(m.text.len(), 8);
    lemma_le_roundtrip(f_ts, 8);
    lemma_le_roundtrip(f_ing, 8);
    lemma_le_roundtrip(m.text.len(), 8);
    assert(b.take(8) =~= le_bytes(f_ts, 8));
    assert(b.skip(8).take(8) =~= le_bytes(f_ing, 8));
    assert(b.skip(16).take(8) =~= le_bytes(m.text.len(), 8));
    assert(b.skip(24) =~= encode_text(m.text) + tail);
    lemma_parse_chars_of_encoding(m.text, tail);
}

proof fn lemma_parse_records_of_encoding(ms: Seq<RecordModel>, tail: Seq<u8>)
    requires
        forall|i: int| 0 <= i < ms.len() ==> model_wf(#[trigger] ms[i]),
    ensures
        parse_records(encode_records(ms) + tail, ms.len()) == Some::<(Seq<RecordModel>, Seq<u8>)>(
            (ms, tail),
        ),
    decreases ms.len(),
{
    if ms.len() == 0 {
        assert(encode_records(ms) + tail =~= tail);
        assert(ms =~= Seq::<RecordModel>::empty());
    } else {
        let b = encode_records(ms) + tail;
        assert(b =~= encode_record(ms[0]) + (encode_records(ms.skip(1)) + tail));
        lemma_parse_record_of_encoding(ms[0], encode_records(ms.skip(1)) + tail);
        lemma_parse_records_of_encoding(ms.skip(1), tail);
        assert(seq![ms[0]] + ms.skip(1) =~= ms);
    }
}

/// Law: the blob format round-trips — decoding an encoded record set
/// returns exactly that record set.
pub proof fn lemma_blob_roundtrip(ms: Seq<RecordModel>)
    requires
        ms.len() < pow256(8),
        forall|i: int| 0 <= i < ms.len() ==> model_wf(#[trigger] ms[i]),
    ensures
        decode_blob(encode_blob(ms)) == Some(ms),
{
    let b = encode_blob(ms);
    lemma_le_bytes_len(ms.len(), 8);
    lemma_le_roundtrip(ms.len(), 8);
    assert(b.take(8) =~= le_bytes(ms.len(), 8));
    assert(b.skip(8) =~= encode_records(ms) + Seq::<u8>::empty());
    lemma_parse_records_of_encoding(ms, Seq::empty());
}

// ----------------------------------------------------------------------
// The executable encoder.
// ----------------------------------------------------------------------

/// `pow256(a)` never shrinks as `a` grows.
pub proof fn lemma_pow256_mono(a: nat, b: nat)
    requires
        a <= b,
    ensures
        pow256(a) <= pow256(b),
    decreases b,
{
    if a < b {
        lemma_pow256_mono(a, (b - 1) as nat);
    }
}

proof fn lemma_encode_records_snoc(ms: Seq<RecordModel>, m: RecordModel)
    ensures
        encode_records(ms.push(m)) == encode_records(ms) + encode_record(m),
    decreases ms.len(),
{
    if ms.len() == 0 {
        let s = ms.push(m);
        assert(s[0] == m);
        assert(s.skip(1) =~= Seq::<RecordModel>::empty());
        assert(encode_records(s) =~= encode_record(m) + encode_records(s.skip(1)));
        assert(encode_record(m) + Seq::<u8>::empty() =~= encode_record(m));
        assert(encode_records(ms) + encode_record(m) =~= encode_record(m));
    } else {
        assert(ms.push(m).skip(1) =~= ms.skip(1).push(m));
        lemma_encode_records_snoc(ms.skip(1), m);
        assert(encode_record(ms[0]) + (encode_records(ms.skip(1)) + encode_record(m))
            =~= (encode_record(ms[0]) + encode_records(ms.skip(1))) + encode_record(m));
    }
}

proof fn lemma_encode_text_snoc(t: Seq<char>, c: char)
    ensures
        encode_text(t.push(c)) == encode_text(t) + encode_char(c),
    decreases t.len(),
{
    if t.len() == 0 {
        let s = t.push(c);
        assert(s[0] == c);
        assert(s.skip(1) =~= Seq::<char>::empty());
        assert(encode_text(s) =~= encode_char(c) + encode_text(s.skip(1)));
        assert(encode_char(c) + Seq::<u8>::empty() =~= encode_char(c));
        assert(encode_text(t) + encode_char(c) =~= encode_char(c));
    } else {
        assert(t.push(c).skip(1) =~= t.skip(1).push(c));
        lemma_encode_text_snoc(t.skip(1), c);
        assert(encode_char(t[0]) + (encode_text(t.skip(1)) + encode_char(c))
            =~= (encode_char(t[0]) + encode_text(t.skip(1))) + encode_char(c));
    }
}

/// Appends the `n`-byte little-endian encoding of `x`.
#[verifier::loop_isolation(false)]
fn push_le_bytes(out: &mut Vec<u8>, x: u64, n: usize)
    ensures
        final(out)@ == old(out)@ + le_bytes(x as nat, n as nat),
{
    let mut cur = x;
    let mut k: usize = 0;
    while k < n
        invariant
            k <= n,
            old(out)@ + le_bytes(x as nat, n as nat) == out@ + le_bytes(
                cur as nat,
                (n - k) as nat,
            ),
        decreases n - k,
    {
        let ghost pre_out: Seq<u8> = out@;
        let ghost pre_cur: nat = cur as nat;
        let b: u8 = (cur % 256) as u8;
        out.push(b);
        cur = cur / 256;
        k = k + 1;
        proof {
            assert(le_bytes(pre_cur, (n - k + 1) as nat) =~= seq![(pre_cur % 256) as u8]
                + le_bytes(pre_cur / 256, (n - k) as nat));
            assert(pre_out + le_bytes(pre_cur, (n - k + 1) as nat) =~= (pre_out + seq![
                (pre_cur % 256) as u8,
            ]) + le_bytes(pre_cur / 256, (n - k) as nat));
            assert(out@ =~= pre_out + seq![(pre_cur % 256) as u8]);
        }
    }
    proof {
        assert(out@ + le_bytes(cur as nat, 0) =~= out@);
    }
}

/// The eight-byte field denoting a signed value, computed without
/// wrapping arithmetic.
fn field_of_i64(x: i64) -> (r: u64)
    ensures
        r as nat == i64_to_field(x as int),
{
    if x >= 0 {
        x as u64
    } else {
        let mag: u64 = (-(x + 1)) as u64;
        u64::MAX - mag
    }
}

/// The signed value an eight-byte field denotes.
fn i64_of_field(u: u64) -> (r: i64)
    ensures
        r as int == field_to_i64(u as nat),
{
    if u < TWO_POW_63 {
        u as i64
    } else {
        let mag: u64 = u64::MAX - u;
        -(mag as i64) - 1
    }
}

/// Encodes a record set as one blob, ready to persist.
#[verifier::loop_isolation(false)]
pub fn encode_records_blob(records: &Vec<Record>) -> (r: Vec<u8>)
    ensures
        r@ == encode_blob(records.deep_view()),
        records.deep_view().len() < pow256(8),
        forall|i: int|
            0 <= i < records.deep_view().len() ==> model_wf(#[trigger] records.deep_view()[i]),
{
    let ghost dv: Seq<RecordModel> = records.deep_view();
    proof {
        lemma_pow256_vals();
    }
    let n = records.len();
    let mut out: Vec<u8> = Vec::new();
    push_le_bytes(&mut out, n as u64, 8);
    proof {
        assert(out@ =~= le_bytes(dv.len(), 8));
        assert(dv.take(0) =~= Seq::<RecordModel>::empty());
        assert(out@ + encode_records(dv.take(0)) =~= out@);
    }
    let mut i: usize = 0;
    while i < n
        invariant
            i <= n,
            n == dv.len(),
            out@ == le_bytes(dv.len(), 8) + encode_records(dv.take(i as int)),
            forall|k: int| 0 <= k < i ==> model_wf(#[trigger] dv[k]),
        decreases n - i,
    {
        let ghost pre_out: Seq<u8> = out@;
        let rec = &records[i];
        push_le_bytes(&mut out, field_of_i64(rec.timestamp), 8);
        push_le_bytes(&mut out, field_of_i64(rec.ingested_at), 8);
        let text = rec.text.as_str();
        let m = text.unicode_len();
        push_le_bytes(&mut out, m as u64, 8);
        let ghost pre_text: Seq<u8> = out@;
        let mut j: usize = 0;
        while j < m
            invariant
                j <= m,
                m == text@.len(),
                out@ == pre_text + encode_text(text@.take(j as int)),
            decreases m - j,
        {
            let c = text.get_char(j);
            let ghost before: Seq<u8> = out@;
            push_le_bytes(&mut out, (c as u32) as u64, 4);
            proof {
                lemma_encode_text_snoc(text@.take(j as int), c);
                assert(text@.take(j + 1) =~= text@.take(j as int).push(c));
                assert(before + le_bytes((c as u32) as nat, 4) =~= pre_text + (encode_text(
                    text@.take(j as int),
                ) + encode_char(c)));
            }
            j = j + 1;
        }
        proof {
            assert(text@.take(m as int) =~= text@);
            assert(dv[i as int] == rec@);
            assert(model_wf(dv[i as int]));
            lemma_encode_records_snoc(dv.take(i as int), dv[i as int]);
            assert(dv.take(i + 1) =~= dv.take(i as int).push(dv[i as int]));
            assert(out@ =~= ((pre_out + le_bytes(i64_to_field(rec@.timestamp), 8)) + le_bytes(
                i64_to_field(rec@.ingested_at),
                8,
            )) + le_bytes(rec@.text.len(), 8) + encode_text(rec@.text));
            assert(out@ =~= pre_out + encode_record(dv[i as int]));
            assert(out@ =~= le_bytes(dv.len(), 8) + encode_records(dv.take(i + 1)));
        }
        i = i + 1;
    }
    proof {
        assert(dv.take(n as int) =~= dv);
    }
    out
}


// ----------------------------------------------------------------------
// The executable decoder.
// ----------------------------------------------------------------------

proof fn lemma_parse_chars_rest(b: Seq<u8>, m: nat)
    ensures
        parse_chars(b, m) is Some ==> {
            let (cs, rest) = parse_chars(b, m)->0;
            &&& cs.len() == m
            &&& 4 * m <= b.len()
            &&& rest.len() == b.len() - 4 * m
        },
    decreases m,
{
    if m > 0 && b.len() >= 4 {
        lemma_parse_chars_rest(b.skip(4), (m - 1) as nat);
    }
}

/// Too few bytes for `m` characters: parsing fails.
proof fn lemma_parse_chars_short(b: Seq<u8>, m: nat)
    requires
        b.len() < 4 * m,
    ensures
        parse_chars(b, m) is None,
{
    lemma_parse_chars_rest(b, m);
}

/// Too few bytes for `n` records: parsing fails.
proof fn lemma_parse_records_short(b: Seq<u8>, n: nat)
    requires
        b.len() < 24 * n,
    ensures
        parse_records(b, n) is None,
    decreases n,
{
    if n > 0 && b.len() >= 24 {
        match parse_record(b) {
            Some((m, rest)) => {
                let cnt = le_int(b.skip(16).take(8));
                lemma_parse_chars_rest(b.skip(24), cnt);
                lemma_parse_records_short(rest, (n - 1) as nat);
            },
            None => {},
        }
    }
}

/// Reads the `n`-byte little-endian number at `pos`.
#[verifier::loop_isolation(false)]
fn read_le(bytes: &Vec<u8>, pos: usize, n: usize) -> (r: u64)
    requires
        pos + n <= bytes@.len(),
        n <= 8,
    ensures
        r as nat == le_int(bytes@.subrange(pos as int, pos + n)),
{
    proof {
        lemma_pow256_vals();
    }
    let len = bytes.len();
    let mut acc: u64 = 0;
    let mut k: usize = 0;
    while k < n
        invariant
            k <= n,
            acc as nat == le_int(bytes@.subrange(pos + n - k, pos + n)),
        decreases n - k,
    {
        let idx = pos + n - 1 - k;
        let b = bytes[idx];
        proof {
            lemma_le_int_bound(bytes@.subrange(pos + n - k, pos + n));
            lemma_pow256_mono(k as nat, 7);
            assert(bytes@.subrange(idx as int, pos + n).skip(1) =~= bytes@.subrange(
                pos + n - k,
                pos + n,
            ));
            assert(bytes@.subrange(idx as int, pos + n)[0] == bytes@[idx as int]);
        }
        acc = (b as u64) + 256 * acc;
        k = k + 1;
    }
    acc
}

/// Parses `m` characters starting at `pos`, returning the text and the
/// position just past it.
#[verifier::loop_isolation(false)]
fn parse_chars_exec(bytes: &Vec<u8>, pos: usize, m: usize) -> (r: Option<(String, usize)>)
    requires
        pos <= bytes@.len(),
    ensures
        (match parse_chars(bytes@.skip(pos as int), m as nat) {
            Some((cs, rest)) => {
                &&& r is Some
                &&& (r->0).0@ == cs
                &&& pos <= (r->0).1 <= bytes@.len()
                &&& bytes@.skip((r->0).1 as int) == rest
            },
            None => r is None,
        }),
{
    let mut acc = String::new();
    let mut cur = pos;
    let mut k: usize = 0;
    proof {
        lemma_pow256_vals();
    }
    while k < m
        invariant
            k <= m,
            pos <= cur <= bytes@.len(),
            (match parse_chars(bytes@.skip(cur as int), (m - k) as nat) {
                Some((cs, rest)) => parse_chars(bytes@.skip(pos as int), m as nat) == Some::<
                    (Seq<char>, Seq<u8>),
                >((acc@ + cs, rest)),
                None => parse_chars(bytes@.skip(pos as int), m as nat) is None,
            }),
        decreases m - k,
    {
        let ghost rem: Seq<u8> = bytes@.skip(cur as int);
        let ghost pre_acc: Seq<char> = acc@;
        if bytes.len() - cur < 4 {
            return None;
        }
        let u64v = read_le(bytes, cur, 4);
        proof {
            assert(rem.take(4) =~= bytes@.subrange(cur as int, cur + 4));
            lemma_le_int_bound(rem.take(4));
        }
        let u = u64v as u32;
        match crate::chars::char_from_u32(u) {
            None => {
                return None;
            },
            Some(c) => {
                crate::chars::push_char(&mut acc, c);
                proof {
                    vstd::utf8::char_u32_cast(c, u);
                    assert(rem.skip(4) =~= bytes@.skip(cur + 4));
                    let uval = le_int(rem.take(4));
                    assert((uval as u32) as char == c);
                    match parse_chars(rem.skip(4), (m - k - 1) as nat) {
                        Some((cs2, rest2)) => {
                            assert(parse_chars(rem, (m - k) as nat) == Some::<
                                (Seq<char>, Seq<u8>),
                            >((seq![c] + cs2, rest2)));
                            assert(pre_acc + (seq![c] + cs2) =~= pre_acc.push(c) + cs2);
                        },
                        None => {},
                    }
                }
                cur = cur + 4;
                k = k + 1;
            },
        }
    }
    proof {
        assert(acc@ + Seq::<char>::empty() =~= acc@);
    }
    Some((acc, cur))
}

/// Parses one record starting at `pos`, returning it and the position just
/// past it.
fn parse_record_exec(bytes: &Vec<u8>, pos: usize) -> (r: Option<(Record, usize)>)
    requires
        pos <= bytes@.len(),
    ensures
        (match parse_record(bytes@.skip(pos as int)) {
            Some((m, rest)) => {
                &&& r is Some
                &&& (r->0).0@ == m
                &&& pos <= (r->0).1 <= bytes@.len()
                &&& bytes@.skip((r->0).1 as int) == rest
            },
            None => r is None,
        }),
{
    let ghost rem: Seq<u8> = bytes@.skip(pos as int);
    proof {
        lemma_pow256_vals();
    }
    if bytes.len() - pos < 24 {
        return None;
    }
    let ts = i64_of_field(read_le(bytes, pos, 8));
    let ing = i64_of_field(read_le(bytes, pos + 8, 8));
    let m64 = read_le(bytes, pos + 16, 8);
    proof {
        assert(rem.take(8) =~= bytes@.subrange(pos as int, pos + 8));
        assert(rem.skip(8).take(8) =~= bytes@.subrange(pos + 8, pos + 16));
        assert(rem.skip(16).take(8) =~= bytes@.subrange(pos + 16, pos + 24));
        assert(rem.skip(24) =~= bytes@.skip(pos + 24));
    }
    let text_bytes = bytes.len() - (pos + 24);
    if m64 > (text_bytes / 4) as u64 {
        proof {
            assert(bytes@.skip(pos + 24).len() < 4 * (m64 as nat));
            lemma_parse_chars_short(bytes@.skip(pos + 24), m64 as nat);
        }
        return None;
    }
    let m = m64 as usize;
    match parse_chars_exec(bytes, pos + 24, m) {
        None => None,
        Some((text, end)) => Some((Record { timestamp: ts, text, ingested_at: ing }, end)),
    }
}

/// Decodes a persisted blob back into its record set. Returns the records
/// exactly when the bytes are a valid encoding, and nothing otherwise.
#[verifier::loop_isolation(false)]
pub fn decode_records_blob(bytes: &Vec<u8>) -> (r: Option<Vec<Record>>)
    ensures
        (match decode_blob(bytes@) {
            Some(ms) => r is Some && r->0.deep_view() == ms,
            None => r is None,
        }),
{
    proof {
        lemma_pow256_vals();
    }
    if bytes.len() < 8 {
        return None;
    }
    let n64 = read_le(bytes, 0, 8);
    proof {
        assert(bytes@.take(8) =~= bytes@.subrange(0, 8));
    }
    let body_bytes = bytes.len() - 8;
    if n64 > (body_bytes / 24) as u64 {
        proof {
            assert(bytes@.skip(8).len() < 24 * (n64 as nat));
            lemma_parse_records_short(bytes@.skip(8), n64 as nat);
        }
        return None;
    }
    let n = n64 as usize;
    let mut out: Vec<Record> = Vec::new();
    let mut cur: usize = 8;
    let mut k: usize = 0;
    proof {
        assert(bytes@.skip(8) =~= bytes@.skip(cur as int));
        assert(out.deep_view() =~= Seq::<RecordModel>::empty());
        match parse_records(bytes@.skip(8), n as nat) {
            Some((ms, rest)) => {
                assert(out.deep_view() + ms =~= ms);
            },
            None => {},
        }
    }
    while k < n
        invariant
            k <= n,
            8 <= cur <= bytes@.len(),
            (match parse_records(bytes@.skip(cur as int), (n - k) as nat) {
                Some((ms, rest)) => parse_records(bytes@.skip(8), n as nat) == Some::<
                    (Seq<RecordModel>, Seq<u8>),
                >((out.deep_view() + ms, rest)),
                None => parse_records(bytes@.skip(8), n as nat) is None,
            }),
        decreases n - k,
    {
        let ghost rem: Seq<u8> = bytes@.skip(cur as int);
        let ghost pre_out: Seq<RecordModel> = out.deep_view();
        match parse_record_exec(bytes, cur) {
            None => {
                return None;
            },
            Some((rec, end)) => {
                out.push(rec);
                proof {
                    match parse_records(bytes@.skip(end as int), (n - k - 1) as nat) {
                        Some((ms2, rest2)) => {
                            assert(parse_records(rem, (n - k) as nat) == Some::<
                                (Seq<RecordModel>, Seq<u8>),
                            >((seq![rec@] + ms2, rest2)));
                            assert(pre_out + (seq![rec@] + ms2) =~= out.deep_view() + ms2);
                        },
                        None => {},
                    }
                }
                cur = end;
                k = k + 1;
            },
        }
    }
    proof {
        match parse_records(bytes@.skip(cur as int), 0) {
            Some((ms, rest)) => {
                assert(out.deep_view() + Seq::<RecordModel>::empty() =~= out.deep_view());
            },
            None => {},
        }
    }
    if cur < bytes.len() {
        return None;
    }
    proof {
        assert(bytes@.skip(cur as int).len() == 0);
    }
    Some(out)
}

} // verus!
