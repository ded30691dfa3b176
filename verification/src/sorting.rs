//! Stable ordering of records and lexicographic ordering of names.
//!
//! Records are ordered by timestamp, ties broken by arrival order: the
//! pagination engine's merge step depends on this stability because equal
//! timestamps are common at sub-resolution granularity. The sort's contract
//! exhibits an explicit permutation witness, which pins the output uniquely:
//! only the stable timestamp sort of the input satisfies it.

use vstd::prelude::*;
use crate::records::{Record, RecordModel};

verus! {

/// Timestamps never decrease along the sequence.
pub open spec fn sorted_by_timestamp(s: Seq<RecordModel>) -> bool {
    forall|i: int, j: int| 0 <= i < j < s.len() ==> s[i].timestamp <= s[j].timestamp
}

/// `perm` maps output positions to distinct input positions, and the output
/// reads the input through it.
pub open spec fn is_permutation_with<T>(
    input: Seq<T>,
    output: Seq<T>,
    perm: Seq<int>,
) -> bool {
    &&& perm.len() == input.len()
    &&& output.len() == input.len()
    &&& forall|k: int| 0 <= k < perm.len() ==> 0 <= #[trigger] perm[k] < input.len()
    &&& forall|k: int, l: int|
        0 <= k < l < perm.len() ==> #[trigger] perm[k] != #[trigger] perm[l]
    &&& forall|k: int| 0 <= k < output.len() ==> output[k] == input[#[trigger] perm[k]]
}

/// Records with equal timestamps keep their input order under `perm`.
pub open spec fn ties_keep_order(output: Seq<RecordModel>, perm: Seq<int>) -> bool {
    forall|k: int, l: int|
        0 <= k < l < output.len() && output[k].timestamp == output[l].timestamp
            ==> #[trigger] perm[k] < #[trigger] perm[l]
}

/// `output` is the stable sort of `input` by ascending timestamp: sorted, a
/// permutation, and order-preserving on equal timestamps. Exactly one
/// sequence satisfies this for a given input ([`lemma_stable_sort_unique`]).
pub open spec fn is_stable_sort_of(input: Seq<RecordModel>, output: Seq<RecordModel>) -> bool {
    &&& sorted_by_timestamp(output)
    &&& exists|perm: Seq<int>|
        is_permutation_with(input, output, perm) && ties_keep_order(output, perm)
}

/// A record carrying its arrival position, so that the sort key
/// (timestamp, tag) is a strict total order.
struct TaggedRecord {
    tag: usize,
    rec: Record,
}

/// Non-strict order on tagged records: by timestamp, then by tag.
spec fn tkey_le(a: TaggedRecord, b: TaggedRecord) -> bool {
    a.rec.timestamp < b.rec.timestamp
        || (a.rec.timestamp == b.rec.timestamp && a.tag <= b.tag)
}

/// Strict comparison of the elements at `a` and `b`.
fn tkey_lt_at(v: &Vec<TaggedRecord>, a: usize, b: usize) -> (r: bool)
    requires
        a < v@.len(),
        b < v@.len(),
    ensures
        r <==> !tkey_le(v@[b as int], v@[a as int]),
{
    let x = &v[a];
    let y = &v[b];
    x.rec.timestamp < y.rec.timestamp
        || (x.rec.timestamp == y.rec.timestamp && x.tag < y.tag)
}

/// How one remove-then-insert step rearranges a sequence: moving the element
/// at `i` down to position `j` shifts the run in between up by one and
/// leaves everything else in place.
proof fn lemma_remove_insert_index_map<T>(s: Seq<T>, i: int, j: int)
    requires
        0 <= j <= i < s.len(),
    ensures
        s.remove(i).insert(j, s[i]).len() == s.len(),
        s.remove(i).insert(j, s[i])[j] == s[i],
        forall|k: int| 0 <= k < j ==> #[trigger] s.remove(i).insert(j, s[i])[k] == s[k],
        forall|k: int| j < k <= i ==> #[trigger] s.remove(i).insert(j, s[i])[k] == s[k - 1],
        forall|k: int| i < k < s.len() ==> #[trigger] s.remove(i).insert(j, s[i])[k] == s[k],
{
}

/// Sorts the records by ascending timestamp, keeping the input order of
/// records whose timestamps tie.
pub fn sort_records(records: Vec<Record>) -> (r: Vec<Record>)
    ensures
        is_stable_sort_of(records.deep_view(), r.deep_view()),
{
    let ghost input_s: Seq<Record> = records@;
    let n = records.len();

    // Tag each record with its arrival position, draining from the back.
    let mut v = records;
    let mut tagged: Vec<TaggedRecord> = Vec::new();
    while v.len() > 0
        invariant
            v@ == input_s.take(v@.len() as int),
            tagged@.len() + v@.len() == n,
            n == input_s.len(),
            forall|k: int|
                0 <= k < tagged@.len() ==> (#[trigger] tagged@[k]).tag as int == n - 1 - k
                    && tagged@[k].rec == input_s[tagged@[k].tag as int],
        decreases v@.len(),
    {
        let r = v.pop().unwrap();
        let t = v.len();
        tagged.push(TaggedRecord { tag: t, rec: r });
    }

    // Insertion sort by (timestamp, tag).
    let mut i: usize = 1;
    while i < n
        invariant
            tagged@.len() == n,
            n == input_s.len(),
            1 <= i,
            n > 0 ==> i <= n,
            forall|k: int|
                0 <= k < n ==> (#[trigger] tagged@[k]).tag < n
                    && tagged@[k].rec == input_s[tagged@[k].tag as int],
            forall|k: int, l: int|
                0 <= k < l < n ==> (#[trigger] tagged@[k]).tag != (#[trigger] tagged@[l]).tag,
            forall|k: int, l: int|
                0 <= k < l < i ==> tkey_le(#[trigger] tagged@[k], #[trigger] tagged@[l]),
        decreases n - i,
    {
        let mut j: usize = i;
        while j > 0 && tkey_lt_at(&tagged, i, j - 1)
            invariant
                j <= i < n,
                tagged@.len() == n,
                forall|l: int| j <= l < i ==> !tkey_le(#[trigger] tagged@[l], tagged@[i as int]),
            decreases j,
        {
            j = j - 1;
        }
        if j < i {
            let ghost pre = tagged@;
            let x = tagged.remove(i);
            tagged.insert(j, x);
            proof {
                lemma_remove_insert_index_map(pre, i as int, j as int);
                assert forall|k: int, l: int|
                    0 <= k < l < i + 1 implies tkey_le(
                    #[trigger] tagged@[k],
                    #[trigger] tagged@[l],
                ) by {
                    if l == j as int {
                        assert(tagged@[l] == pre[i as int]);
                        if k < j as int {
                            assert(tagged@[k] == pre[k]);
                            assert(tkey_le(pre[j - 1], pre[i as int]));
                            assert(tkey_le(pre[k], pre[j - 1]));
                        }
                    } else if k == j as int {
                        assert(tagged@[k] == pre[i as int]);
                        assert(tagged@[l] == pre[l - 1]);
                        assert(!tkey_le(pre[l - 1], pre[i as int]));
                        assert(tkey_le(pre[i as int], pre[l - 1]));
                    }
                }
            }
        }
        i = i + 1;
    }

    // Untag in order; the tags become the permutation witness.
    let ghost sorted_s: Seq<TaggedRecord> = tagged@;
    let mut rest = tagged;
    let mut out: Vec<Record> = Vec::new();
    while rest.len() > 0
        invariant
            out@.len() + rest@.len() == sorted_s.len(),
            rest@ == sorted_s.skip(out@.len() as int),
            forall|k: int| 0 <= k < out@.len() ==> #[trigger] out@[k] == sorted_s[k].rec,
        decreases rest@.len(),
    {
        let t = rest.remove(0);
        out.push(t.rec);
        proof {
            assert(rest@ =~= sorted_s.skip(out@.len() as int));
        }
    }

    proof {
        let perm = Seq::new(sorted_s.len(), |k: int| sorted_s[k].tag as int);
        let inp = records.deep_view();
        let outp = out.deep_view();
        if n == 0 {
            assert(inp =~= Seq::<RecordModel>::empty());
            assert(outp =~= Seq::<RecordModel>::empty());
            assert(is_permutation_with(inp, outp, perm));
            assert(ties_keep_order(outp, perm));
        } else {
            assert(input_s =~= input_s.take(n as int));
            assert forall|k: int| 0 <= k < outp.len() implies outp[k] == inp[#[trigger] perm[k]] by {
                assert(out@[k] == sorted_s[k].rec);
                assert(out@[k] == input_s[perm[k]]);
            }
            assert(is_permutation_with(inp, outp, perm));
            assert forall|k: int, l: int|
                0 <= k < l < outp.len() && outp[k].timestamp == outp[l].timestamp implies #[trigger] perm[k]
                < #[trigger] perm[l] by {
                assert(tkey_le(sorted_s[k], sorted_s[l]));
                assert(sorted_s[k].tag != sorted_s[l].tag);
            }
            assert(ties_keep_order(outp, perm));
        }
        assert(sorted_by_timestamp(outp)) by {
            assert forall|k: int, l: int|
                0 <= k < l < outp.len() implies outp[k].timestamp <= outp[l].timestamp by {
                assert(tkey_le(sorted_s[k], sorted_s[l]));
            }
        }
        assert(is_stable_sort_of(inp, outp)) by {
            assert(is_permutation_with(inp, outp, perm) && ties_keep_order(outp, perm));
        }
    }
    out
}


/// Law: the stable sort of an empty run is empty — with the contract of the
/// pagination driver, an empty first page yields an empty result and no
/// error.
pub proof fn lemma_stable_sort_of_empty(out: Seq<RecordModel>)
    requires
        is_stable_sort_of(Seq::<RecordModel>::empty(), out),
    ensures
        out == Seq::<RecordModel>::empty(),
{
    let perm = choose|perm: Seq<int>|
        is_permutation_with(Seq::<RecordModel>::empty(), out, perm) && ties_keep_order(out, perm);
    assert(out.len() == 0);
    assert(out =~= Seq::<RecordModel>::empty());
}

/// The strict total order on input positions that a stable sort follows:
/// by timestamp, then by position.
spec fn idx_lt(input: Seq<RecordModel>, a: int, b: int) -> bool {
    input[a].timestamp < input[b].timestamp || (input[a].timestamp == input[b].timestamp && a
        < b)
}

/// `n` distinct positions below `n` are all of them.
proof fn lemma_distinct_range_covers(p: Seq<int>, n: int)
    requires
        p.len() == n,
        forall|k: int| 0 <= k < p.len() ==> 0 <= #[trigger] p[k] < n,
        forall|k: int, l: int| 0 <= k < l < p.len() ==> #[trigger] p[k] != #[trigger] p[l],
    ensures
        p.to_set() =~= vstd::set_lib::set_int_range(0, n),
{
    assert(p.no_duplicates()) by {
        assert forall|i: int, j: int|
            0 <= i < p.len() && 0 <= j < p.len() && i != j implies p[i] != p[j] by {
            if i < j {
                assert(p[i] != p[j]);
            } else {
                assert(p[j] != p[i]);
            }
        }
    }
    p.unique_seq_to_set();
    vstd::set_lib::lemma_int_range(0, n);
    let range = vstd::set_lib::set_int_range(0, n);
    assert forall|v: int| range.contains(v) implies p.to_set().contains(v) by {
        if !p.to_set().contains(v) {
            assert(p.to_set().subset_of(range)) by {
                assert forall|w: int| p.to_set().contains(w) implies range.contains(w) by {
                    let k = choose|k: int| 0 <= k < p.len() && p[k] == w;
                    assert(0 <= p[k] < n);
                }
            }
            p.to_set().lemma_subset_not_in_lt(range, v);
            assert(false);
        }
    }
}

/// Two runs of positions that both climb the same strict order and cover
/// the same set are identical.
proof fn lemma_incr_enum_unique(input: Seq<RecordModel>, p1: Seq<int>, p2: Seq<int>)
    requires
        p1.len() == p2.len(),
        forall|k: int, l: int|
            0 <= k < l < p1.len() ==> idx_lt(input, #[trigger] p1[k], #[trigger] p1[l]),
        forall|k: int, l: int|
            0 <= k < l < p2.len() ==> idx_lt(input, #[trigger] p2[k], #[trigger] p2[l]),
        p1.to_set() == p2.to_set(),
    ensures
        p1 =~= p2,
    decreases p1.len(),
{
    if p1.len() > 0 {
        assert(p1.contains(p1[0]));
        assert(p2.contains(p2[0]));
        assert(p2.to_set().contains(p1[0]));
        let m = choose|m: int| 0 <= m < p2.len() && p2[m] == p1[0];
        assert(p1.to_set().contains(p2[0]));
        let m2 = choose|k: int| 0 <= k < p1.len() && p1[k] == p2[0];
        if m > 0 && m2 > 0 {
            assert(idx_lt(input, p2[0], p1[0]));
            assert(idx_lt(input, p1[0], p2[0]));
            assert(false);
        }
        assert(p1[0] == p2[0]);
        let t1 = p1.skip(1);
        let t2 = p2.skip(1);
        assert forall|v: int| t1.to_set().contains(v) implies t2.to_set().contains(v) by {
            let k = choose|k: int| 0 <= k < t1.len() && t1[k] == v;
            assert(t1[k] == p1[k + 1]);
            assert(idx_lt(input, p1[0], p1[k + 1]));
            assert(v != p1[0]);
            assert(p1.contains(v));
            assert(p2.to_set().contains(v));
            let l = choose|l: int| 0 <= l < p2.len() && p2[l] == v;
            assert(l != 0);
            assert(t2[l - 1] == v);
            assert(t2.contains(v));
        }
        assert forall|v: int| t2.to_set().contains(v) implies t1.to_set().contains(v) by {
            let k = choose|k: int| 0 <= k < t2.len() && t2[k] == v;
            assert(t2[k] == p2[k + 1]);
            assert(idx_lt(input, p2[0], p2[k + 1]));
            assert(v != p2[0]);
            assert(p2.contains(v));
            assert(p1.to_set().contains(v));
            let l = choose|l: int| 0 <= l < p1.len() && p1[l] == v;
            assert(l != 0);
            assert(t1[l - 1] == v);
            assert(t1.contains(v));
        }
        assert(t1.to_set() =~= t2.to_set());
        assert forall|k: int, l: int|
            0 <= k < l < t1.len() implies idx_lt(input, #[trigger] t1[k], #[trigger] t1[l]) by {
            assert(t1[k] == p1[k + 1]);
            assert(t1[l] == p1[l + 1]);
        }
        assert forall|k: int, l: int|
            0 <= k < l < t2.len() implies idx_lt(input, #[trigger] t2[k], #[trigger] t2[l]) by {
            assert(t2[k] == p2[k + 1]);
            assert(t2[l] == p2[l + 1]);
        }
        lemma_incr_enum_unique(input, t1, t2);
        assert forall|k: int| 0 <= k < p1.len() implies p1[k] == p2[k] by {
            if k > 0 {
                assert(t1[k - 1] == t2[k - 1]);
            }
        }
    }
}

/// Law: the stable sort is unique — any two sequences that each satisfy
/// [`is_stable_sort_of`] for one input are equal, so the contract of
/// [`sort_records`] pins its result completely.
pub proof fn lemma_stable_sort_unique(
    input: Seq<RecordModel>,
    out1: Seq<RecordModel>,
    out2: Seq<RecordModel>,
)
    requires
        is_stable_sort_of(input, out1),
        is_stable_sort_of(input, out2),
    ensures
        out1 == out2,
{
    let p1 = choose|perm: Seq<int>|
        is_permutation_with(input, out1, perm) && ties_keep_order(out1, perm);
    let p2 = choose|perm: Seq<int>|
        is_permutation_with(input, out2, perm) && ties_keep_order(out2, perm);
    let n = input.len() as int;
    assert forall|k: int, l: int|
        0 <= k < l < p1.len() implies idx_lt(input, #[trigger] p1[k], #[trigger] p1[l]) by {
        assert(out1[k] == input[p1[k]]);
        assert(out1[l] == input[p1[l]]);
        assert(out1[k].timestamp <= out1[l].timestamp);
    }
    assert forall|k: int, l: int|
        0 <= k < l < p2.len() implies idx_lt(input, #[trigger] p2[k], #[trigger] p2[l]) by {
        assert(out2[k] == input[p2[k]]);
        assert(out2[l] == input[p2[l]]);
        assert(out2[k].timestamp <= out2[l].timestamp);
    }
    lemma_distinct_range_covers(p1, n);
    lemma_distinct_range_covers(p2, n);
    assert(p1.to_set() == p2.to_set());
    lemma_incr_enum_unique(input, p1, p2);
    assert forall|k: int| 0 <= k < out1.len() implies out1[k] == out2[k] by {
        assert(p1[k] == p2[k]);
        assert(out1[k] == input[p1[k]]);
        assert(out2[k] == input[p2[k]]);
    }
    assert(out1 =~= out2);
}

/// Lexicographic order on character sequences, by Unicode scalar value: the
/// empty sequence comes first, and the first differing position decides.
pub open spec fn lex_le(a: Seq<char>, b: Seq<char>) -> bool
    decreases a.len(),
{
    if a.len() == 0 {
        true
    } else if b.len() == 0 {
        false
    } else if a[0] == b[0] {
        lex_le(a.skip(1), b.skip(1))
    } else {
        (a[0] as u32) < (b[0] as u32)
    }
}

pub proof fn lemma_lex_le_reflexive(a: Seq<char>)
    ensures
        lex_le(a, a),
    decreases a.len(),
{
    if a.len() > 0 {
        lemma_lex_le_reflexive(a.skip(1));
    }
}

pub proof fn lemma_lex_le_total(a: Seq<char>, b: Seq<char>)
    ensures
        lex_le(a, b) || lex_le(b, a),
    decreases a.len(),
{
    if a.len() > 0 && b.len() > 0 {
        if a[0] == b[0] {
            lemma_lex_le_total(a.skip(1), b.skip(1));
        } else {
            assert((a[0] as u32) != (b[0] as u32)) by {
                vstd::utf8::char_u32_cast(a[0], a[0] as u32);
                vstd::utf8::char_u32_cast(b[0], b[0] as u32);
            }
        }
    }
}

pub proof fn lemma_lex_le_antisymmetric(a: Seq<char>, b: Seq<char>)
    requires
        lex_le(a, b),
        lex_le(b, a),
    ensures
        a == b,
    decreases a.len(),
{
    if a.len() == 0 {
        assert(b.len() == 0);
        assert(a =~= b);
    } else {
        assert(b.len() > 0);
        assert(a[0] == b[0]);
        lemma_lex_le_antisymmetric(a.skip(1), b.skip(1));
        assert(a =~= seq![a[0]] + a.skip(1));
        assert(b =~= seq![b[0]] + b.skip(1));
    }
}

pub proof fn lemma_lex_le_transitive(a: Seq<char>, b: Seq<char>, c: Seq<char>)
    requires
        lex_le(a, b),
        lex_le(b, c),
    ensures
        lex_le(a, c),
    decreases a.len(),
{
    if a.len() > 0 && b.len() > 0 && c.len() > 0 && a[0] == b[0] && b[0] == c[0] {
        lemma_lex_le_transitive(a.skip(1), b.skip(1), c.skip(1));
    }
}

/// If `a` and `b` agree on their first `i` characters, the comparison is
/// decided by the remainders.
proof fn lemma_lex_le_common_prefix(a: Seq<char>, b: Seq<char>, i: int)
    requires
        0 <= i <= a.len(),
        i <= b.len(),
        forall|k: int| 0 <= k < i ==> a[k] == b[k],
    ensures
        lex_le(a, b) == lex_le(a.skip(i), b.skip(i)),
    decreases i,
{
    if i == 0 {
        assert(a.skip(0) =~= a);
        assert(b.skip(0) =~= b);
    } else {
        assert(a.len() > 0 && b.len() > 0 && a[0] == b[0]);
        assert(a.skip(1).skip(i - 1) =~= a.skip(i));
        assert(b.skip(1).skip(i - 1) =~= b.skip(i));
        assert(forall|k: int| 0 <= k < i - 1 ==> a.skip(1)[k] == b.skip(1)[k]);
        lemma_lex_le_common_prefix(a.skip(1), b.skip(1), i - 1);
    }
}

/// Three-way lexicographic comparison of two strings.
/// Returns a negative, zero, or positive code as `a` is strictly before,
/// equal to, or strictly after `b`.
pub fn str_lex_cmp(a: &str, b: &str) -> (r: i8)
    ensures
        r == 0 ==> a@ == b@,
        r < 0 ==> !lex_le(b@, a@),
        r > 0 ==> !lex_le(a@, b@),
{
    let alen = a.unicode_len();
    let blen = b.unicode_len();
    let mut i: usize = 0;
    while i < alen && i < blen
        invariant
            i <= alen,
            i <= blen,
            alen == a@.len(),
            blen == b@.len(),
            forall|k: int| 0 <= k < i ==> a@[k] == b@[k],
        decreases alen - i,
    {
        let ca = a.get_char(i);
        let cb = b.get_char(i);
        if ca != cb {
            proof {
                lemma_lex_le_common_prefix(a@, b@, i as int);
                lemma_lex_le_common_prefix(b@, a@, i as int);
            }
            if (ca as u32) < (cb as u32) {
                return -1;
            } else {
                assert((cb as u32) < (ca as u32));
                return 1;
            }
        }
        i = i + 1;
    }
    proof {
        lemma_lex_le_common_prefix(a@, b@, i as int);
        lemma_lex_le_common_prefix(b@, a@, i as int);
    }
    if alen == blen {
        proof {
            assert(a@ =~= b@);
        }
        0
    } else if alen < blen {
        -1
    } else {
        1
    }
}

/// A name carrying its arrival position, so that the sort key is a strict
/// total order even when two names coincide.
struct TaggedName {
    tag: usize,
    name: String,
}

/// Non-strict order on tagged names: lexicographic, then by tag.
spec fn skey_le(a: TaggedName, b: TaggedName) -> bool {
    if a.name@ == b.name@ {
        a.tag <= b.tag
    } else {
        lex_le(a.name@, b.name@)
    }
}

proof fn lemma_skey_connected(a: TaggedName, b: TaggedName)
    ensures
        skey_le(a, b) || skey_le(b, a),
{
    lemma_lex_le_total(a.name@, b.name@);
}

proof fn lemma_skey_transitive(a: TaggedName, b: TaggedName, c: TaggedName)
    requires
        skey_le(a, b),
        skey_le(b, c),
    ensures
        skey_le(a, c),
{
    if a.name@ != b.name@ && b.name@ != c.name@ && a.name@ != c.name@ {
        lemma_lex_le_transitive(a.name@, b.name@, c.name@);
    } else if a.name@ == c.name@ && a.name@ != b.name@ {
        lemma_lex_le_antisymmetric(a.name@, b.name@);
    }
}

/// Strict comparison of the elements at `a` and `b`.
fn skey_lt_at(v: &Vec<TaggedName>, a: usize, b: usize) -> (r: bool)
    requires
        a < v@.len(),
        b < v@.len(),
    ensures
        r <==> !skey_le(v@[b as int], v@[a as int]),
{
    let x = &v[a];
    let y = &v[b];
    let c = str_lex_cmp(x.name.as_str(), y.name.as_str());
    proof {
        lemma_lex_le_reflexive(x.name@);
        lemma_lex_le_total(x.name@, y.name@);
    }
    if c == 0 {
        x.tag < y.tag
    } else {
        c < 0
    }
}

/// Names never decrease lexicographically along the sequence.
pub open spec fn sorted_lex(s: Seq<Seq<char>>) -> bool {
    forall|i: int, j: int| 0 <= i < j < s.len() ==> lex_le(#[trigger] s[i], #[trigger] s[j])
}

/// `output` is `input` sorted lexicographically: sorted and a permutation.
pub open spec fn is_lex_sort_of(input: Seq<Seq<char>>, output: Seq<Seq<char>>) -> bool {
    &&& sorted_lex(output)
    &&& exists|perm: Seq<int>| is_permutation_with(input, output, perm)
}

/// Sorts the names lexicographically; equal names keep their input order.
pub fn sort_names(names: Vec<String>) -> (r: Vec<String>)
    ensures
        is_lex_sort_of(names.deep_view(), r.deep_view()),
{
    let ghost input_s: Seq<String> = names@;
    let n = names.len();

    // Tag each name with its arrival position, draining from the back.
    let mut v = names;
    let mut tagged: Vec<TaggedName> = Vec::new();
    while v.len() > 0
        invariant
            v@ == input_s.take(v@.len() as int),
            tagged@.len() + v@.len() == n,
            n == input_s.len(),
            forall|k: int|
                0 <= k < tagged@.len() ==> (#[trigger] tagged@[k]).tag as int == n - 1 - k
                    && tagged@[k].name == input_s[tagged@[k].tag as int],
        decreases v@.len(),
    {
        let s = v.pop().unwrap();
        let t = v.len();
        tagged.push(TaggedName { tag: t, name: s });
    }

    // Insertion sort by (name, tag).
    let mut i: usize = 1;
    while i < n
        invariant
            tagged@.len() == n,
            n == input_s.len(),
            1 <= i,
            n > 0 ==> i <= n,
            forall|k: int|
                0 <= k < n ==> (#[trigger] tagged@[k]).tag < n
                    && tagged@[k].name == input_s[tagged@[k].tag as int],
            forall|k: int, l: int|
                0 <= k < l < n ==> (#[trigger] tagged@[k]).tag != (#[trigger] tagged@[l]).tag,
            forall|k: int, l: int|
                0 <= k < l < i ==> skey_le(#[trigger] tagged@[k], #[trigger] tagged@[l]),
        decreases n - i,
    {
        let mut j: usize = i;
        while j > 0 && skey_lt_at(&tagged, i, j - 1)
            invariant
                j <= i < n,
                tagged@.len() == n,
                forall|l: int| j <= l < i ==> !skey_le(#[trigger] tagged@[l], tagged@[i as int]),
            decreases j,
        {
            j = j - 1;
        }
        if j < i {
            let ghost pre = tagged@;
            let x = tagged.remove(i);
            tagged.insert(j, x);
            proof {
                lemma_remove_insert_index_map(pre, i as int, j as int);
                assert forall|k: int, l: int|
                    0 <= k < l < i + 1 implies skey_le(
                    #[trigger] tagged@[k],
                    #[trigger] tagged@[l],
                ) by {
                    if l == j as int {
                        assert(tagged@[l] == pre[i as int]);
                        if k < j as int {
                            assert(tagged@[k] == pre[k]);
                            assert(skey_le(pre[j - 1], pre[i as int]));
                            lemma_skey_transitive(pre[k], pre[j - 1], pre[i as int]);
                        }
                    } else if k == j as int {
                        assert(tagged@[k] == pre[i as int]);
                        assert(tagged@[l] == pre[l - 1]);
                        assert(!skey_le(pre[l - 1], pre[i as int]));
                        lemma_skey_connected(pre[i as int], pre[l - 1]);
                    }
                }
            }
        } else {
            proof {
                assert forall|k: int, l: int|
                    0 <= k < l < i + 1 implies skey_le(
                    #[trigger] tagged@[k],
                    #[trigger] tagged@[l],
                ) by {
                    if l == i as int && k < i - 1 {
                        lemma_skey_transitive(tagged@[k], tagged@[i - 1], tagged@[i as int]);
                    }
                }
            }
        }
        i = i + 1;
    }

    // Untag in order; the tags become the permutation witness.
    let ghost sorted_s: Seq<TaggedName> = tagged@;
    let mut rest = tagged;
    let mut out: Vec<String> = Vec::new();
    while rest.len() > 0
        invariant
            out@.len() + rest@.len() == sorted_s.len(),
            rest@ == sorted_s.skip(out@.len() as int),
            forall|k: int| 0 <= k < out@.len() ==> #[trigger] out@[k] == sorted_s[k].name,
        decreases rest@.len(),
    {
        let t = rest.remove(0);
        out.push(t.name);
        proof {
            assert(rest@ =~= sorted_s.skip(out@.len() as int));
        }
    }

    proof {
        let perm = Seq::new(sorted_s.len(), |k: int| sorted_s[k].tag as int);
        let inp = names.deep_view();
        let outp = out.deep_view();
        if n == 0 {
            assert(inp =~= Seq::<Seq<char>>::empty());
            assert(outp =~= Seq::<Seq<char>>::empty());
            assert(is_permutation_with(inp, outp, perm));
        } else {
            assert(input_s =~= input_s.take(n as int));
            assert forall|k: int| 0 <= k < outp.len() implies outp[k] == inp[#[trigger] perm[k]] by {
                assert(out@[k] == sorted_s[k].name);
                assert(out@[k] == input_s[perm[k]]);
            }
            assert(is_permutation_with(inp, outp, perm));
        }
        assert(sorted_lex(outp)) by {
            assert forall|k: int, l: int|
                0 <= k < l < outp.len() implies lex_le(#[trigger] outp[k], #[trigger] outp[l]) by {
                assert(skey_le(sorted_s[k], sorted_s[l]));
                if sorted_s[k].name@ == sorted_s[l].name@ {
                    lemma_lex_le_reflexive(sorted_s[k].name@);
                }
            }
        }
        assert(is_lex_sort_of(inp, outp)) by {
            assert(is_permutation_with(inp, outp, perm));
        }
    }
    out
}

} // verus!
