//! The message-container codec: serializing the dictionary into the Sir0
//! wrapped string table, and parsing it back.

use vstd::prelude::*;

use crate::sir0::{sir0_footer_bytes, sir0_footer_of, sir0_get_header, sir0_header_bytes};
use crate::sir0::sir0_parse_of;
use crate::store::{find_hash, MessageBin};
use crate::wide::{
    lemma_u16_le_roundtrip, lemma_u32_le_roundtrip, u16_at, u16_le_bytes, u32_at, u32_le_bytes,
    utf16_decode, utf16_encode, zeros,
};

verus! {

/// An error that may occur when reading a message file via
/// [`MessageBin::load_file`].
#[derive(Debug)]
pub enum MessageBinReadError {
    /// The Sir0 container could not be parsed.
    Sir0Error(pmd_sir0::Sir0Error),
    /// The header payload, the record table or a string runs past the end
    /// of the data.
    Truncated,
    /// The code table rejected a raw string; carries the offending text
    /// read directly from the wide units.
    CantDecodeString(pmd_code_table::CodeToTextError, String),
}

/// An error that may occur when writing a message file via
/// [`MessageBin::write`].
#[derive(Debug)]
pub enum MessageBinWriteError {
    /// An offset or length does not fit in the 32-bit range.
    Overflow,
    /// The footer writer rejected the offset list.
    Sir0WriteFooterError(pmd_sir0::Sir0WriteFooterError),
    /// The code table rejected a text; carries the offending text.
    CantEncodeText(pmd_code_table::TextToCodeError, String),
}

/// Little-endian bytes of a run of 16-bit code units.
pub open spec fn units_bytes(u: Seq<u16>) -> Seq<u8>
    decreases u.len(),
{
    if u.len() == 0 {
        Seq::empty()
    } else {
        u16_le_bytes(u[0]) + units_bytes(u.drop_first())
    }
}

/// One stored string: its code units followed by the zero terminator unit.
pub open spec fn entry_bytes(u: Seq<u16>) -> Seq<u8> {
    units_bytes(u) + zeros(2)
}

/// The string-data region: each entry's bytes in dictionary order.
pub open spec fn blob_bytes(es: Seq<(u32, u32, Seq<u16>)>) -> Seq<u8>
    decreases es.len(),
{
    if es.len() == 0 {
        Seq::empty()
    } else {
        entry_bytes(es[0].2) + blob_bytes(es.drop_first())
    }
}

/// The record of each entry: where its string starts when the region begins
/// at `base`, its hash, and its opaque value.
pub open spec fn records_of(es: Seq<(u32, u32, Seq<u16>)>, base: int) -> Seq<(u32, u32, u32)>
    decreases es.len(),
{
    if es.len() == 0 {
        Seq::empty()
    } else {
        seq![(base as u32, es[0].0, es[0].1)] + records_of(
            es.drop_first(),
            base + entry_bytes(es[0].2).len(),
        )
    }
}

/// The 12 bytes of one record.
pub open spec fn record_bytes(r: (u32, u32, u32)) -> Seq<u8> {
    u32_le_bytes(r.0) + u32_le_bytes(r.1) + u32_le_bytes(r.2)
}

/// The record table region.
pub open spec fn table_bytes(rs: Seq<(u32, u32, u32)>) -> Seq<u8>
    decreases rs.len(),
{
    if rs.len() == 0 {
        Seq::empty()
    } else {
        record_bytes(rs[0]) + table_bytes(rs.drop_first())
    }
}

/// `n` rounded up to a multiple of 4.
pub open spec fn align4(n: int) -> int {
    if n % 4 == 0 {
        n
    } else {
        n + (4 - n % 4)
    }
}

/// `n` rounded up to a multiple of 16.
pub open spec fn align16(n: int) -> int {
    if n % 16 == 0 {
        n
    } else {
        n + (16 - n % 16)
    }
}

/// Order on records by string pointer.
pub open spec fn ptr_le() -> spec_fn((u32, u32, u32), (u32, u32, u32)) -> bool {
    |a: (u32, u32, u32), b: (u32, u32, u32)| a.0 <= b.0
}

/// Order on records by hash.
pub open spec fn hash_le() -> spec_fn((u32, u32, u32), (u32, u32, u32)) -> bool {
    |a: (u32, u32, u32), b: (u32, u32, u32)| a.1 <= b.1
}

/// Insert `x` into `s` after every element that compares at or below it.
pub open spec fn insert_sorted(
    s: Seq<(u32, u32, u32)>,
    x: (u32, u32, u32),
    le: spec_fn((u32, u32, u32), (u32, u32, u32)) -> bool,
) -> Seq<(u32, u32, u32)>
    decreases s.len(),
{
    if s.len() == 0 {
        seq![x]
    } else if le(s.last(), x) {
        s.push(x)
    } else {
        insert_sorted(s.drop_last(), x, le).push(s.last())
    }
}

/// Stable insertion sort under `le`.
pub open spec fn sort_by_le(
    s: Seq<(u32, u32, u32)>,
    le: spec_fn((u32, u32, u32), (u32, u32, u32)) -> bool,
) -> Seq<(u32, u32, u32)>
    decreases s.len(),
{
    if s.len() == 0 {
        Seq::empty()
    } else {
        insert_sorted(sort_by_le(s.drop_last(), le), s.last(), le)
    }
}

/// Where the executable scan stops is where `insert_sorted` puts the element.
proof fn lemma_insert_sorted_at(
    s: Seq<(u32, u32, u32)>,
    x: (u32, u32, u32),
    le: spec_fn((u32, u32, u32), (u32, u32, u32)) -> bool,
    pos: int,
)
    requires
        0 <= pos <= s.len(),
        forall|j: int| pos <= j < s.len() ==> !le(#[trigger] s[j], x),
        pos > 0 ==> le(s[pos - 1], x),
    ensures
        insert_sorted(s, x, le) == s.subrange(0, pos) + seq![x] + s.subrange(
            pos,
            s.len() as int,
        ),
    decreases s.len(),
{
    if pos == s.len() {
        if s.len() == 0 {
            assert(insert_sorted(s, x, le) =~= s.subrange(0, pos) + seq![x] + s.subrange(
                pos,
                s.len() as int,
            ));
        } else {
            assert(le(s.last(), x));
            assert(insert_sorted(s, x, le) =~= s.subrange(0, pos) + seq![x] + s.subrange(
                pos,
                s.len() as int,
            ));
        }
    } else {
        assert(!le(s[s.len() - 1], x));
        lemma_insert_sorted_at(s.drop_last(), x, le, pos);
        assert(insert_sorted(s, x, le) =~= s.subrange(0, pos) + seq![x] + s.subrange(
            pos,
            s.len() as int,
        ));
    }
}

/// Inserting adds exactly one occurrence of the element.
proof fn lemma_insert_sorted_multiset(
    s: Seq<(u32, u32, u32)>,
    x: (u32, u32, u32),
    le: spec_fn((u32, u32, u32), (u32, u32, u32)) -> bool,
)
    ensures
        insert_sorted(s, x, le).to_multiset() == s.push(x).to_multiset(),
    decreases s.len(),
{
    broadcast use vstd::seq_lib::group_to_multiset_ensures;

    if s.len() == 0 {
    } else if le(s.last(), x) {
    } else {
        lemma_insert_sorted_multiset(s.drop_last(), x, le);
        assert(s.drop_last().push(x).to_multiset() =~= s.push(x).to_multiset().remove(
            s.last(),
        )) by {
            assert(s.push(x).drop_last() == s);
            lemma_multiset_swap_last(s, x);
        }
        assert(insert_sorted(s, x, le).to_multiset() =~= s.push(x).to_multiset());
    }
}

/// Pushing two elements in either order gives the same multiset.
proof fn lemma_multiset_swap_last(s: Seq<(u32, u32, u32)>, x: (u32, u32, u32))
    ensures
        s.push(x).to_multiset() == s.drop_last().push(x).push(s.last()).to_multiset()
            || s.len() == 0,
    decreases s.len(),
{
    broadcast use vstd::seq_lib::group_to_multiset_ensures;

    if s.len() > 0 {
        let a = s.drop_last();
        let y = s.last();
        assert(s =~= a.push(y));
        assert(a.push(y).push(x).to_multiset() =~= a.push(x).push(y).to_multiset()) by {
            assert(a.push(y).push(x).to_multiset() == a.push(y).to_multiset().insert(x));
            assert(a.push(y).to_multiset() == a.to_multiset().insert(y));
            assert(a.push(x).push(y).to_multiset() == a.push(x).to_multiset().insert(y));
            assert(a.push(x).to_multiset() == a.to_multiset().insert(x));
            assert(a.to_multiset().insert(y).insert(x) =~= a.to_multiset().insert(x).insert(y));
        }
    }
}

/// Sorting permutes: the multiset of records is unchanged.
pub proof fn lemma_sort_by_le_multiset(
    s: Seq<(u32, u32, u32)>,
    le: spec_fn((u32, u32, u32), (u32, u32, u32)) -> bool,
)
    ensures
        sort_by_le(s, le).to_multiset() == s.to_multiset(),
    decreases s.len(),
{
    broadcast use vstd::seq_lib::group_to_multiset_ensures;

    if s.len() > 0 {
        lemma_sort_by_le_multiset(s.drop_last(), le);
        lemma_insert_sorted_multiset(sort_by_le(s.drop_last(), le), s.last(), le);
        assert(sort_by_le(s.drop_last(), le).push(s.last()).to_multiset() =~= s.to_multiset())
            by {
            assert(s =~= s.drop_last().push(s.last()));
            assert(sort_by_le(s.drop_last(), le).push(s.last()).to_multiset() == sort_by_le(
                s.drop_last(),
                le,
            ).to_multiset().insert(s.last()));
            assert(s.drop_last().push(s.last()).to_multiset() == s.drop_last().to_multiset()
                .insert(s.last()));
        }
    }
}

/// Sorted under `le`: every earlier element compares at or below every
/// later one.
pub open spec fn sorted_le(
    s: Seq<(u32, u32, u32)>,
    le: spec_fn((u32, u32, u32), (u32, u32, u32)) -> bool,
) -> bool {
    forall|i: int, j: int| 0 <= i < j < s.len() ==> #[trigger] le(s[i], s[j])
}

/// Every element of the inserted run compares at or below the old last
/// element, when the new element does.
proof fn lemma_in_multiset_le(
    s: Seq<(u32, u32, u32)>,
    x: (u32, u32, u32),
    le: spec_fn((u32, u32, u32), (u32, u32, u32)) -> bool,
    q: Seq<(u32, u32, u32)>,
    i: int,
)
    requires
        forall|a: (u32, u32, u32), b: (u32, u32, u32)| #[trigger] le(a, b) || le(b, a),
        forall|a: (u32, u32, u32), b: (u32, u32, u32), c: (u32, u32, u32)|
            (#[trigger] le(a, b) && #[trigger] le(b, c)) ==> le(a, c),
        s.len() > 0,
        !le(s.last(), x),
        sorted_le(s, le),
        q.to_multiset() == s.drop_last().push(x).to_multiset(),
        0 <= i < q.len(),
    ensures
        le(q[i], s.last()),
{
    broadcast use vstd::seq_lib::group_to_multiset_ensures;

    let e = q[i];
    assert(q.to_multiset().contains(e));
    assert(s.drop_last().push(x).to_multiset().contains(e));
    assert(s.drop_last().push(x).contains(e));
    if e == x {
        assert(le(x, s.last()));
    } else {
        let k = choose|k: int|
            0 <= k < s.drop_last().push(x).len() && s.drop_last().push(x)[k] == e;
        if k < s.len() - 1 {
            assert(s[k] == e);
            assert(le(s[k], s[s.len() - 1]));
        } else {
            assert(e == x);
        }
    }
}

/// Inserting into a sorted run keeps it sorted, for a total order.
proof fn lemma_insert_sorted_sorted(
    s: Seq<(u32, u32, u32)>,
    x: (u32, u32, u32),
    le: spec_fn((u32, u32, u32), (u32, u32, u32)) -> bool,
)
    requires
        forall|a: (u32, u32, u32), b: (u32, u32, u32)| #[trigger] le(a, b) || le(b, a),
        forall|a: (u32, u32, u32), b: (u32, u32, u32), c: (u32, u32, u32)|
            (#[trigger] le(a, b) && #[trigger] le(b, c)) ==> le(a, c),
        sorted_le(s, le),
    ensures
        sorted_le(insert_sorted(s, x, le), le),
    decreases s.len(),
{
    broadcast use vstd::seq_lib::group_to_multiset_ensures;

    if s.len() == 0 {
        let r = insert_sorted(s, x, le);
        assert forall|i: int, j: int| 0 <= i < j < r.len() implies #[trigger] le(r[i], r[j]) by {}
    } else if le(s.last(), x) {
        let r = s.push(x);
        assert forall|i: int, j: int| 0 <= i < j < r.len() implies #[trigger] le(r[i], r[j]) by {
            if j == r.len() - 1 {
                assert(r[j] == x);
                assert(r[i] == s[i]);
                if i < s.len() - 1 {
                    assert(le(s[i], s[s.len() - 1]));
                }
            } else {
                assert(r[i] == s[i] && r[j] == s[j]);
                assert(le(s[i], s[j]));
            }
        }
        assert(insert_sorted(s, x, le) == r);
    } else {
        assert(sorted_le(s.drop_last(), le)) by {
            assert forall|i: int, j: int|
                0 <= i < j < s.drop_last().len() implies #[trigger] le(
                s.drop_last()[i],
                s.drop_last()[j],
            ) by {
                assert(s.drop_last()[i] == s[i] && s.drop_last()[j] == s[j]);
                assert(le(s[i], s[j]));
            }
        }
        lemma_insert_sorted_sorted(s.drop_last(), x, le);
        lemma_insert_sorted_multiset(s.drop_last(), x, le);
        let q = insert_sorted(s.drop_last(), x, le);
        let r = q.push(s.last());
        assert(insert_sorted(s, x, le) == r);
        assert(q.to_multiset().len() == s.drop_last().push(x).to_multiset().len());
        assert(q.len() == s.len());
        assert forall|i: int, j: int| 0 <= i < j < r.len() implies #[trigger] le(r[i], r[j]) by {
            if j == r.len() - 1 {
                assert(0 <= i < q.len());
                assert(r[i] == q[i]);
                assert(r[j] == s.last());
                lemma_in_multiset_le(s, x, le, q, i);
                assert(le(q[i], s.last()));
                assert(le(r[i], r[j]));
            } else {
                assert(j < q.len());
                assert(r[i] == q[i]);
                assert(r[j] == q[j]);
                assert(sorted_le(q, le));
                assert(le(q[i], q[j]));
                assert(le(r[i], r[j]));
            }
        }
    }
}

/// The result of the sort is sorted, for a total order.
pub proof fn lemma_sort_by_le_sorted(
    s: Seq<(u32, u32, u32)>,
    le: spec_fn((u32, u32, u32), (u32, u32, u32)) -> bool,
)
    requires
        forall|a: (u32, u32, u32), b: (u32, u32, u32)| #[trigger] le(a, b) || le(b, a),
        forall|a: (u32, u32, u32), b: (u32, u32, u32), c: (u32, u32, u32)|
            (#[trigger] le(a, b) && #[trigger] le(b, c)) ==> le(a, c),
    ensures
        sorted_le(sort_by_le(s, le), le),
    decreases s.len(),
{
    if s.len() == 0 {
        let r = sort_by_le(s, le);
        assert forall|i: int, j: int| 0 <= i < j < r.len() implies #[trigger] le(r[i], r[j]) by {}
    } else {
        lemma_sort_by_le_sorted(s.drop_last(), le);
        lemma_insert_sorted_sorted(sort_by_le(s.drop_last(), le), s.last(), le);
    }
}

/// Insert a record into a run kept sorted by string pointer.
fn sorted_insert_ptr(out: &mut Vec<(u32, u32, u32)>, x: (u32, u32, u32))
    ensures
        final(out)@ == insert_sorted(old(out)@, x, ptr_le()),
{
    let mut pos = out.len();
    while pos > 0 && out[pos - 1].0 > x.0
        invariant
            0 <= pos <= out@.len(),
            out@ == old(out)@,
            forall|j: int| pos <= j < out@.len() ==> (#[trigger] out@[j]).0 > x.0,
        decreases pos,
    {
        pos -= 1;
    }
    proof {
        assert(forall|j: int| pos <= j < out@.len() ==> !ptr_le()(#[trigger] out@[j], x));
        lemma_insert_sorted_at(out@, x, ptr_le(), pos as int);
    }
    out.insert(pos, x);
    proof {
        assert(out@ =~= old(out)@.subrange(0, pos as int) + seq![x] + old(out)@.subrange(
            pos as int,
            old(out)@.len() as int,
        ));
    }
}

/// Insert a record into a run kept sorted by hash.
fn sorted_insert_hash(out: &mut Vec<(u32, u32, u32)>, x: (u32, u32, u32))
    ensures
        final(out)@ == insert_sorted(old(out)@, x, hash_le()),
{
    let mut pos = out.len();
    while pos > 0 && out[pos - 1].1 > x.1
        invariant
            0 <= pos <= out@.len(),
            out@ == old(out)@,
            forall|j: int| pos <= j < out@.len() ==> (#[trigger] out@[j]).1 > x.1,
        decreases pos,
    {
        pos -= 1;
    }
    proof {
        assert(forall|j: int| pos <= j < out@.len() ==> !hash_le()(#[trigger] out@[j], x));
        lemma_insert_sorted_at(out@, x, hash_le(), pos as int);
    }
    out.insert(pos, x);
    proof {
        assert(out@ =~= old(out)@.subrange(0, pos as int) + seq![x] + old(out)@.subrange(
            pos as int,
            old(out)@.len() as int,
        ));
    }
}

/// Sort records by ascending string pointer; equal pointers keep their
/// relative order.
fn sort_records_by_ptr(recs: &Vec<(u32, u32, u32)>) -> (r: Vec<(u32, u32, u32)>)
    ensures
        r@ == sort_by_le(recs@, ptr_le()),
{
    let mut out: Vec<(u32, u32, u32)> = Vec::new();
    let mut i: usize = 0;
    proof {
        assert(recs@.take(0) =~= Seq::<(u32, u32, u32)>::empty());
    }
    while i < recs.len()
        invariant
            0 <= i <= recs@.len(),
            out@ == sort_by_le(recs@.take(i as int), ptr_le()),
        decreases recs@.len() - i,
    {
        sorted_insert_ptr(&mut out, recs[i]);
        proof {
            assert(recs@.take(i + 1).drop_last() =~= recs@.take(i as int));
            assert(recs@.take(i + 1).last() == recs@[i as int]);
        }
        i += 1;
    }
    proof {
        assert(recs@.take(recs@.len() as int) =~= recs@);
    }
    out
}

/// Sort records by ascending hash; equal hashes keep their relative order.
fn sort_records_by_hash(recs: &Vec<(u32, u32, u32)>) -> (r: Vec<(u32, u32, u32)>)
    ensures
        r@ == sort_by_le(recs@, hash_le()),
{
    let mut out: Vec<(u32, u32, u32)> = Vec::new();
    let mut i: usize = 0;
    proof {
        assert(recs@.take(0) =~= Seq::<(u32, u32, u32)>::empty());
    }
    while i < recs.len()
        invariant
            0 <= i <= recs@.len(),
            out@ == sort_by_le(recs@.take(i as int), hash_le()),
        decreases recs@.len() - i,
    {
        sorted_insert_hash(&mut out, recs[i]);
        proof {
            assert(recs@.take(i + 1).drop_last() =~= recs@.take(i as int));
            assert(recs@.take(i + 1).last() == recs@[i as int]);
        }
        i += 1;
    }
    proof {
        assert(recs@.take(recs@.len() as int) =~= recs@);
    }
    out
}


/// The wide entries of the messages under the direct UTF-16 encoding.
pub open spec fn utf16_entries(msgs: Seq<(u32, u32, Seq<char>)>) -> Seq<(u32, u32, Seq<u16>)> {
    msgs.map_values(|m: (u32, u32, Seq<char>)| (m.0, m.1, utf16_encode(m.2)))
}

/// Entries built from the messages and externally produced wide strings.
pub open spec fn combine_entries(msgs: Seq<(u32, u32, Seq<char>)>, ws: Seq<Seq<u16>>) -> Seq<
    (u32, u32, Seq<u16>),
> {
    Seq::new(msgs.len(), |i: int| (msgs[i].0, msgs[i].1, ws[i]))
}

/// Byte offset of the record table: the string region, which starts at 16,
/// padded to a multiple of 4.
pub open spec fn table_offset(es: Seq<(u32, u32, Seq<u16>)>) -> int {
    align4(16 + blob_bytes(es).len() as int)
}

/// Byte offset of the internal header payload, directly after the table.
pub open spec fn payload_offset(es: Seq<(u32, u32, Seq<u16>)>) -> int {
    table_offset(es) + 12 * es.len()
}

/// Byte offset of the footer: the payload end padded to a multiple of 16.
pub open spec fn footer_offset(es: Seq<(u32, u32, Seq<u16>)>) -> int {
    align16(payload_offset(es) + 8)
}

/// The relocation offsets handed to the footer writer: the two header
/// fields, each record's string pointer field, and the sentinel after the
/// table.
pub open spec fn sir0_offsets(es: Seq<(u32, u32, Seq<u16>)>) -> Seq<u32> {
    seq![4u32, 8u32] + Seq::new(es.len(), |i: int| (table_offset(es) + 12 * i) as u32) + seq![
        (payload_offset(es) + 4) as u32,
    ]
}

/// Whether some offset of the layout exceeds the 32-bit range.
pub open spec fn layout_overflows(es: Seq<(u32, u32, Seq<u16>)>) -> bool {
    footer_offset(es) > 0xFFFFFFFF
}

/// The whole file image for the given entries.
#[verifier::opaque]
pub open spec fn encoded_bytes(es: Seq<(u32, u32, Seq<u16>)>) -> Seq<u8> {
    let blob = blob_bytes(es);
    let toff = table_offset(es);
    let poff = payload_offset(es);
    let foff = footer_offset(es);
    let sorted = sort_by_le(records_of(es, 16), hash_le());
    seq![0x53u8, 0x49u8, 0x52u8, 0x30u8] + u32_le_bytes(poff as u32) + u32_le_bytes(foff as u32)
        + zeros(4) + blob + zeros((toff - (16 + blob.len())) as nat) + table_bytes(sorted)
        + u32_le_bytes(es.len() as u32) + u32_le_bytes(toff as u32) + zeros(
        (foff - (poff + 8)) as nat,
    ) + sir0_footer_of(sir0_offsets(es))
}

/// Rounding up to 4 adds the distance to the next multiple.
pub proof fn lemma_align4(n: int)
    requires
        n >= 0,
    ensures
        align4(n) % 4 == 0,
        n <= align4(n) < n + 4,
        align4(n) == n + ((4 - n % 4) % 4),
{
}

/// Rounding up to 16 adds the distance to the next multiple.
pub proof fn lemma_align16(n: int)
    requires
        n >= 0,
    ensures
        align16(n) % 16 == 0,
        n <= align16(n) < n + 16,
        align16(n) == n + ((16 - n % 16) % 16),
{
}

/// The string region of concatenated entry lists is the concatenation of
/// their string regions.
proof fn lemma_blob_concat(a: Seq<(u32, u32, Seq<u16>)>, b: Seq<(u32, u32, Seq<u16>)>)
    ensures
        blob_bytes(a + b) == blob_bytes(a) + blob_bytes(b),
    decreases a.len(),
{
    if a.len() == 0 {
        assert(a + b =~= b);
        assert(blob_bytes(a) + blob_bytes(b) =~= blob_bytes(b));
    } else {
        assert((a + b)[0] == a[0]);
        assert((a + b).drop_first() =~= a.drop_first() + b);
        lemma_blob_concat(a.drop_first(), b);
        assert(blob_bytes(a + b) =~= blob_bytes(a) + blob_bytes(b));
    }
}

/// Likewise for the record list, shifting the base past the first part.
proof fn lemma_records_concat(a: Seq<(u32, u32, Seq<u16>)>, b: Seq<(u32, u32, Seq<u16>)>, base: int)
    ensures
        records_of(a + b, base) == records_of(a, base) + records_of(
            b,
            base + blob_bytes(a).len(),
        ),
    decreases a.len(),
{
    if a.len() == 0 {
        assert(a + b =~= b);
        assert(blob_bytes(a).len() == 0);
        assert(records_of(a, base) + records_of(b, base) =~= records_of(b, base));
    } else {
        assert((a + b)[0] == a[0]);
        assert((a + b).drop_first() =~= a.drop_first() + b);
        lemma_records_concat(a.drop_first(), b, base + entry_bytes(a[0].2).len());
        assert(blob_bytes(a).len() == entry_bytes(a[0].2).len() + blob_bytes(
            a.drop_first(),
        ).len());
        assert(records_of(a + b, base) =~= records_of(a, base) + records_of(
            b,
            base + blob_bytes(a).len(),
        ));
    }
}

/// Each entry takes at least its terminator's two bytes.
proof fn lemma_blob_min_len(es: Seq<(u32, u32, Seq<u16>)>)
    ensures
        blob_bytes(es).len() >= 2 * es.len(),
    decreases es.len(),
{
    if es.len() > 0 {
        lemma_blob_min_len(es.drop_first());
    }
}

/// The footer offset bounds every other offset of the layout.
proof fn lemma_footer_ge(es: Seq<(u32, u32, Seq<u16>)>)
    ensures
        footer_offset(es) >= payload_offset(es) + 8,
        payload_offset(es) >= table_offset(es),
        table_offset(es) >= 16 + blob_bytes(es).len(),
{
    lemma_align4(16 + blob_bytes(es).len() as int);
    lemma_align16(payload_offset(es) + 8);
}

/// Splitting the message list splits its wide entries.
proof fn lemma_entries_split(msgs: Seq<(u32, u32, Seq<char>)>, i: int)
    requires
        0 <= i <= msgs.len(),
    ensures
        utf16_entries(msgs) == utf16_entries(msgs.take(i)) + utf16_entries(msgs.skip(i)),
{
    assert(utf16_entries(msgs) =~= utf16_entries(msgs.take(i)) + utf16_entries(msgs.skip(i)));
}

/// Append the little-endian bytes of each unit.
fn push_units(out: &mut Vec<u8>, units: &Vec<u16>)
    ensures
        final(out)@ == old(out)@ + units_bytes(units@),
{
    let mut j: usize = 0;
    proof {
        assert(units@.skip(0) =~= units@);
    }
    while j < units.len()
        invariant
            0 <= j <= units@.len(),
            out@ + units_bytes(units@.skip(j as int)) == old(out)@ + units_bytes(units@),
        decreases units@.len() - j,
    {
        let ghost pre = out@;
        crate::wide::push_u16_le(out, units[j]);
        proof {
            let t = units@.skip(j as int);
            assert(t[0] == units@[j as int]);
            assert(t.drop_first() =~= units@.skip(j + 1));
            assert(units_bytes(t) == u16_le_bytes(units@[j as int]) + units_bytes(
                units@.skip(j + 1),
            ));
            assert(pre + units_bytes(t) =~= out@ + units_bytes(units@.skip(j + 1)));
        }
        j += 1;
    }
    proof {
        assert(units_bytes(units@.skip(units@.len() as int)) =~= Seq::<u8>::empty());
        assert(out@ =~= out@ + units_bytes(units@.skip(units@.len() as int)));
    }
}

/// Append `k` zero bytes.
fn push_zeros(out: &mut Vec<u8>, k: usize)
    ensures
        final(out)@ == old(out)@ + zeros(k as nat),
{
    let mut j: usize = 0;
    while j < k
        invariant
            0 <= j <= k,
            out@ == old(out)@ + zeros(j as nat),
        decreases k - j,
    {
        let ghost pre = out@;
        out.push(0u8);
        proof {
            assert(pre.push(0u8) =~= old(out)@ + zeros((j + 1) as nat));
        }
        j += 1;
    }
}

/// Append the 12 bytes of each record.
fn push_table(out: &mut Vec<u8>, recs: &Vec<(u32, u32, u32)>)
    ensures
        final(out)@ == old(out)@ + table_bytes(recs@),
{
    let mut j: usize = 0;
    proof {
        assert(recs@.skip(0) =~= recs@);
    }
    while j < recs.len()
        invariant
            0 <= j <= recs@.len(),
            out@ + table_bytes(recs@.skip(j as int)) == old(out)@ + table_bytes(recs@),
        decreases recs@.len() - j,
    {
        let ghost pre = out@;
        let r = recs[j];
        crate::wide::push_u32_le(out, r.0);
        crate::wide::push_u32_le(out, r.1);
        crate::wide::push_u32_le(out, r.2);
        proof {
            let t = recs@.skip(j as int);
            assert(t[0] == recs@[j as int]);
            assert(t.drop_first() =~= recs@.skip(j + 1));
            assert(table_bytes(t) == record_bytes(recs@[j as int]) + table_bytes(
                recs@.skip(j + 1),
            ));
            assert(out@ =~= pre + record_bytes(recs@[j as int]));
            assert(pre + table_bytes(t) =~= out@ + table_bytes(recs@.skip(j + 1)));
        }
        j += 1;
    }
    proof {
        assert(table_bytes(recs@.skip(recs@.len() as int)) =~= Seq::<u8>::empty());
        assert(out@ =~= out@ + table_bytes(recs@.skip(recs@.len() as int)));
    }
}


/// The table region is 12 bytes per record.
proof fn lemma_table_bytes_len(rs: Seq<(u32, u32, u32)>)
    ensures
        table_bytes(rs).len() == 12 * rs.len(),
    decreases rs.len(),
{
    if rs.len() > 0 {
        lemma_table_bytes_len(rs.drop_first());
    }
}

/// Sorting keeps the number of records.
proof fn lemma_sort_by_le_len(
    s: Seq<(u32, u32, u32)>,
    le: spec_fn((u32, u32, u32), (u32, u32, u32)) -> bool,
)
    ensures
        sort_by_le(s, le).len() == s.len(),
{
    broadcast use vstd::seq_lib::group_to_multiset_ensures;

    lemma_sort_by_le_multiset(s, le);
    assert(sort_by_le(s, le).to_multiset().len() == s.to_multiset().len());
}

/// The pieces written one after the other make up exactly the encoded image.
#[verifier::rlimit(100)]
proof fn lemma_assemble(
    entries: Seq<(u32, u32, Seq<u16>)>,
    hdrv: Seq<u8>,
    bodyv: Seq<u8>,
    footv: Seq<u8>,
    outv: Seq<u8>,
    pad1: nat,
    pad2: nat,
)
    requires
        hdrv == seq![0x53u8, 0x49u8, 0x52u8, 0x30u8] + u32_le_bytes(
            payload_offset(entries) as u32,
        ) + u32_le_bytes(footer_offset(entries) as u32),
        pad1 == table_offset(entries) - (16 + blob_bytes(entries).len()),
        pad2 == footer_offset(entries) - (payload_offset(entries) + 8),
        bodyv == blob_bytes(entries) + zeros(pad1) + table_bytes(
            sort_by_le(records_of(entries, 16), hash_le()),
        ) + u32_le_bytes(entries.len() as u32) + u32_le_bytes(table_offset(entries) as u32)
            + zeros(pad2),
        footv == sir0_footer_of(sir0_offsets(entries)),
        outv == hdrv + zeros(4) + bodyv + footv,
    ensures
        outv == encoded_bytes(entries),
{
    reveal(encoded_bytes);
    assert(outv =~= encoded_bytes(entries));
}

/// A record list holds one record per entry.
proof fn lemma_records_of_len(es: Seq<(u32, u32, Seq<u16>)>, base: int)
    ensures
        records_of(es, base).len() == es.len(),
    decreases es.len(),
{
    if es.len() > 0 {
        lemma_records_of_len(es.drop_first(), base + entry_bytes(es[0].2).len());
    }
}

/// The byte length of a unit run is twice the unit count.
proof fn lemma_units_bytes_len(u: Seq<u16>)
    ensures
        units_bytes(u).len() == 2 * u.len(),
    decreases u.len(),
{
    if u.len() > 0 {
        lemma_units_bytes_len(u.drop_first());
    }
}

impl MessageBin {
    /// Build the string-data region (each text's wide units and terminator)
    /// together with one record per message.
    #[verifier::rlimit(100)]
    fn encode_entries(&self, text_to_code: Option<&pmd_code_table::TextToCode<'_>>) -> (r: Result<
        (Vec<u8>, Vec<(u32, u32, u32)>, Ghost<Seq<(u32, u32, Seq<u16>)>>),
        MessageBinWriteError,
    >)
        ensures
            r matches Ok(t) ==> ({
                let entries = t.2@;
                &&& entries.len() == self.msgs().len()
                &&& forall|k: int|
                    0 <= k < entries.len() ==> (#[trigger] entries[k]).0 == self.msgs()[k].0
                        && entries[k].1 == self.msgs()[k].1
                &&& (text_to_code is None ==> entries == utf16_entries(self.msgs()))
                &&& t.0@ == blob_bytes(entries)
                &&& 16 + t.0@.len() <= 0xFFFFFFFF
                &&& t.1@ == records_of(entries, 16)
            }),
            r matches Err(e) ==> (text_to_code is None ==> e is Overflow && layout_overflows(
                utf16_entries(self.msgs()),
            )),
            r matches Err(e) ==> {
                &&& (e is Overflow || e is CantEncodeText)
                &&& (e is CantEncodeText ==> exists|i: int|
                    0 <= i < self.msgs().len() && e->CantEncodeText_1@ == (
                    #[trigger] self.msgs()[i]).2)
                &&& (e is Overflow ==> exists|ws: Seq<Seq<u16>>|
                    ws.len() <= self.msgs().len() && layout_overflows(
                        #[trigger] combine_entries(self.msgs().take(ws.len() as int), ws),
                    ))
            },
    {
        let ghost msgs = self.msgs();
        let n_msgs = self.message.len();
        let mut body: Vec<u8> = Vec::new();
        let mut records: Vec<(u32, u32, u32)> = Vec::new();
        let ghost mut entries: Seq<(u32, u32, Seq<u16>)> = Seq::empty();
        let mut i: usize = 0;
        proof {
            assert(blob_bytes(entries) =~= Seq::<u8>::empty());
            assert(records_of(entries, 16) =~= Seq::<(u32, u32, u32)>::empty());
            assert(utf16_entries(msgs.take(0)) =~= Seq::<(u32, u32, Seq<u16>)>::empty());
        }
        while i < n_msgs
            invariant
                msgs == self.msgs(),
                n_msgs == self.message@.len(),
                0 <= i <= n_msgs,
                entries.len() == i,
                forall|k: int|
                    0 <= k < i ==> (#[trigger] entries[k]).0 == msgs[k].0 && entries[k].1
                        == msgs[k].1,
                text_to_code is None ==> entries == utf16_entries(msgs.take(i as int)),
                body@ == blob_bytes(entries),
                16 + body@.len() <= 0xFFFFFFFF,
                records@ == records_of(entries, 16),
            decreases n_msgs - i,
        {
            let hash = self.message[i].0;
            let unk = self.message[i].1;
            let wide: Vec<u16> = match text_to_code {
                Some(tc) => match crate::codetable::code_encode(tc, self.message[i].2.as_str()) {
                    Ok(w) => w,
                    Err(e) => {
                        proof {
                            assert(0 <= i < msgs.len() && msgs[i as int].2 == self.message@[
                                i as int].2@);
                        }
                        return Err(
                            MessageBinWriteError::CantEncodeText(e, self.message[i].2.clone()),
                        );
                    },
                },
                None => crate::wide::utf16_units(self.message[i].2.as_str()),
            };
            proof {
                if text_to_code is None {
                    assert(wide@ == utf16_encode(msgs[i as int].2));
                }
            }
            if wide.len() as u64 > 0x7FFFFFFFu64 || 16 + body.len() as u64 + 2 * (
            wide.len() as u64) + 2 > 0xFFFFFFFFu64 {
                proof {
                    if text_to_code is None {
                        let full = utf16_entries(msgs);
                        lemma_entries_split(msgs, i as int);
                        let suffix = utf16_entries(msgs.skip(i as int));
                        assert(msgs.skip(i as int)[0] == msgs[i as int]);
                        assert(suffix[0] == (msgs[i as int].0, msgs[i as int].1, utf16_encode(
                            msgs[i as int].2,
                        )));
                        lemma_blob_concat(utf16_entries(msgs.take(i as int)), suffix);
                        assert(blob_bytes(suffix) == entry_bytes(suffix[0].2) + blob_bytes(
                            suffix.drop_first(),
                        ));
                        lemma_units_bytes_len(wide@);
                        assert(entry_bytes(wide@).len() == 2 * wide@.len() + 2);
                        assert(16 + blob_bytes(full).len() > 0xFFFFFFFF);
                        lemma_footer_ge(full);
                        assert(layout_overflows(full));
                    }
                    let pre = entries.push((msgs[i as int].0, msgs[i as int].1, wide@));
                    let ws = Seq::new(pre.len(), |k: int| pre[k].2);
                    assert(combine_entries(msgs.take(i + 1), ws) =~= pre);
                    lemma_blob_concat(entries, seq![pre.last()]);
                    assert(pre =~= entries + seq![pre.last()]);
                    assert(seq![pre.last()].drop_first() =~= Seq::<(u32, u32, Seq<u16>)>::empty());
                    assert(blob_bytes(seq![pre.last()]) == entry_bytes(wide@) + blob_bytes(
                        seq![pre.last()].drop_first(),
                    ));
                    lemma_units_bytes_len(wide@);
                    assert(16 + blob_bytes(pre).len() > 0xFFFFFFFF);
                    lemma_footer_ge(pre);
                    assert(layout_overflows(combine_entries(msgs.take(ws.len() as int), ws)));
                    assert(ws.len() <= msgs.len());
                }
                return Err(MessageBinWriteError::Overflow);
            }
            let ptr: u32 = (16 + body.len()) as u32;
            push_units(&mut body, &wide);
            body.push(0u8);
            body.push(0u8);
            records.push((ptr, hash, unk));
            proof {
                lemma_units_bytes_len(wide@);
                let e = (hash, unk, wide@);
                let old_entries = entries;
                entries = entries.push(e);
                assert(entries =~= old_entries + seq![e]);
                lemma_blob_concat(old_entries, seq![e]);
                assert(seq![e].drop_first() =~= Seq::<(u32, u32, Seq<u16>)>::empty());
                assert(seq![e][0] == e);
                assert(blob_bytes(Seq::<(u32, u32, Seq<u16>)>::empty()) == Seq::<u8>::empty());
                assert(blob_bytes(seq![e]) == entry_bytes(e.2) + blob_bytes(
                    seq![e].drop_first(),
                ));
                assert(blob_bytes(seq![e]) =~= entry_bytes(wide@));
                assert(body@ =~= blob_bytes(old_entries) + entry_bytes(wide@));
                lemma_records_concat(old_entries, seq![e], 16);
                let base = 16 + blob_bytes(old_entries).len() as int;
                assert(base == ptr);
                assert(records_of(Seq::<(u32, u32, Seq<u16>)>::empty(), base + entry_bytes(
                    e.2,
                ).len()) == Seq::<(u32, u32, u32)>::empty());
                assert(records_of(seq![e], base) == seq![(base as u32, e.0, e.1)] + records_of(
                    seq![e].drop_first(),
                    base + entry_bytes(seq![e][0].2).len(),
                ));
                assert(records_of(seq![e], base) =~= seq![(ptr, hash, unk)]);
                assert(records@ =~= records_of(entries, 16));
                if text_to_code is None {
                    assert(entries =~= utf16_entries(msgs.take(i + 1)));
                }
            }
            i += 1;
        }
        proof {
            if text_to_code is None {
                assert(msgs.take(n_msgs as int) =~= msgs);
            }
        }
        Ok((body, records, Ghost(entries)))
    }
}

/// An empty store's layout always fits the 32-bit range.
proof fn lemma_empty_layout()
    ensures
        !layout_overflows(Seq::<(u32, u32, Seq<u16>)>::empty()),
{
    let es = Seq::<(u32, u32, Seq<u16>)>::empty();
    assert(blob_bytes(es) == Seq::<u8>::empty());
    lemma_align4(16);
    assert(table_offset(es) == 16);
    lemma_align16(payload_offset(es) + 8);
    assert(footer_offset(es) < 40);
}

impl MessageBin {
    /// Serialize the store into a complete message file image: the string
    /// data region from offset 16, padded to 4; the record table sorted by
    /// ascending hash; the internal header payload; padding to 16; the
    /// relocation footer; and the container header at offset 0. Fails with
    /// the overflow error exactly when an offset would not fit 32 bits.
    #[verifier::rlimit(100)]
    pub fn write(&self, text_to_code: Option<&pmd_code_table::TextToCode<'_>>) -> (r: Result<
        Vec<u8>,
        MessageBinWriteError,
    >)
        ensures
            ({
                let es = utf16_entries(self.msgs());
                text_to_code is None ==> match r {
                    Ok(out) => !layout_overflows(es) && out@ == encoded_bytes(es),
                    Err(e) => e is Overflow && layout_overflows(es),
                }
            }),
            text_to_code is Some ==> (r matches Ok(out) ==> exists|ws: Seq<Seq<u16>>|
                ws.len() == self.msgs().len() && !layout_overflows(
                    combine_entries(self.msgs(), ws),
                ) && out@ == encoded_bytes(combine_entries(self.msgs(), ws))),
            r matches Err(e) ==> {
                &&& (e is Overflow || e is CantEncodeText)
                &&& (e is CantEncodeText ==> exists|i: int|
                    0 <= i < self.msgs().len() && e->CantEncodeText_1@ == (
                    #[trigger] self.msgs()[i]).2)
                &&& (e is Overflow ==> exists|ws: Seq<Seq<u16>>|
                    ws.len() <= self.msgs().len() && layout_overflows(
                        #[trigger] combine_entries(self.msgs().take(ws.len() as int), ws),
                    ))
            },
            self.msgs().len() == 0 ==> r is Ok,
            ({
                let es = utf16_entries(self.msgs());
                (text_to_code is None && self.wf() && no_nul_texts(self.msgs())) ==> (r
                    matches Ok(out) ==> {
                    &&& sir0_parse_of(out@) is Some
                    &&& sir0_parse_of(out@)->0.len() >= 8
                    &&& u32_at(sir0_parse_of(out@)->0, 0) as int == self.msgs().len()
                    &&& u32_at(sir0_parse_of(out@)->0, 4) as int == table_offset(es)
                    &&& decoded_store(
                        out@,
                        u32_at(sir0_parse_of(out@)->0, 0) as nat,
                        u32_at(sir0_parse_of(out@)->0, 4) as int,
                    ) == Some(self.msgs())
                })
            }),
    {
        let ghost msgs = self.msgs();
        let n_msgs = self.message.len();
        let (body_t, records, entries_g) = match self.encode_entries(text_to_code) {
            Ok(t) => t,
            Err(e) => {
                proof {
                    if msgs.len() == 0 {
                        lemma_empty_layout();
                        if e is Overflow {
                            let ws = choose|ws: Seq<Seq<u16>>|
                                ws.len() <= self.msgs().len() && layout_overflows(
                                    #[trigger] combine_entries(
                                        self.msgs().take(ws.len() as int),
                                        ws,
                                    ),
                                );
                            assert(combine_entries(msgs.take(ws.len() as int), ws) =~= Seq::<
                                (u32, u32, Seq<u16>),
                            >::empty());
                        }
                    }
                }
                return Err(e);
            },
        };
        let mut body = body_t;
        let ghost entries = entries_g@;
        proof {
            lemma_blob_min_len(entries);
        }
        let pad1: usize = ((4 - (16 + body.len()) % 4) % 4);
        push_zeros(&mut body, pad1);
        let ghost spec_toff = table_offset(entries);
        proof {
            lemma_align4(16 + blob_bytes(entries).len() as int);
        }
        let toff64: u64 = 16 + body.len() as u64;
        proof {
            assert(toff64 == spec_toff);
        }
        if toff64 > 0xFFFFFFFFu64 {
            proof {
                lemma_footer_ge(entries);
                assert(layout_overflows(entries));
                let ws = Seq::new(entries.len(), |k: int| entries[k].2);
                assert(combine_entries(msgs.take(ws.len() as int), ws) =~= entries);
                if msgs.len() == 0 {
                    lemma_empty_layout();
                    assert(entries =~= Seq::<(u32, u32, Seq<u16>)>::empty());
                    assert(false);
                }
            }
            return Err(MessageBinWriteError::Overflow);
        }
        let toff: u32 = toff64 as u32;
        let sorted = sort_records_by_hash(&records);
        let poff64: u64 = toff64 + 12 * (n_msgs as u64);
        let ghost spec_poff = payload_offset(entries);
        proof {
            assert(poff64 == spec_poff);
        }
        let foff64: u64 = {
            let t: u64 = poff64 + 8;
            t + ((16 - t % 16) % 16)
        };
        let ghost spec_foff = footer_offset(entries);
        proof {
            lemma_align16(spec_poff + 8);
            assert(foff64 == spec_foff);
        }
        if foff64 > 0xFFFFFFFFu64 {
            proof {
                assert(layout_overflows(entries));
                let ws = Seq::new(entries.len(), |k: int| entries[k].2);
                assert(combine_entries(msgs.take(ws.len() as int), ws) =~= entries);
                if msgs.len() == 0 {
                    lemma_empty_layout();
                    assert(entries =~= Seq::<(u32, u32, Seq<u16>)>::empty());
                    assert(false);
                }
            }
            return Err(MessageBinWriteError::Overflow);
        }
        let poff: u32 = poff64 as u32;
        let foff: u32 = foff64 as u32;
        push_table(&mut body, &sorted);
        proof {
            lemma_table_bytes_len(sorted@);
            lemma_sort_by_le_len(records@, hash_le());
            lemma_records_of_len(entries, 16);
        }
        crate::wide::push_u32_le(&mut body, n_msgs as u32);
        crate::wide::push_u32_le(&mut body, toff);
        let cur2: u64 = 16 + body.len() as u64;
        let pad2: usize = (((16 - cur2 % 16) % 16)) as usize;
        proof {
            assert(16 + body@.len() == spec_poff + 8);
            assert(pad2 == spec_foff - (spec_poff + 8));
        }
        push_zeros(&mut body, pad2);
        let mut offs: Vec<u32> = Vec::new();
        offs.push(4u32);
        offs.push(8u32);
        let mut k: usize = 0;
        proof {
            assert(offs@ =~= seq![4u32, 8u32] + Seq::new(0, |x: int| (spec_toff + 12 * x) as u32));
        }
        while k < n_msgs
            invariant
                0 <= k <= n_msgs,
                spec_toff == table_offset(entries),
                entries.len() == n_msgs,
                toff == spec_toff,
                16 <= spec_toff,
                spec_toff + 12 * n_msgs <= 0xFFFFFFFF,
                offs@ == seq![4u32, 8u32] + Seq::new(
                    k as nat,
                    |x: int| (spec_toff + 12 * x) as u32,
                ),
            decreases n_msgs - k,
        {
            let ghost pre = offs@;
            offs.push(toff + 12 * (k as u32));
            proof {
                assert(offs@ =~= seq![4u32, 8u32] + Seq::new(
                    (k + 1) as nat,
                    |x: int| (spec_toff + 12 * x) as u32,
                ));
            }
            k += 1;
        }
        offs.push(poff + 4);
        proof {
            assert(offs@ =~= sir0_offsets(entries));
            assert(forall|x: int|
                1 <= x < offs@.len() ==> (#[trigger] offs@[x - 1]) <= offs@[x]);
        }
        let footer = match sir0_footer_bytes(&offs) {
            Ok(f) => f,
            Err(_) => {
                proof {
                    assert(false);
                }
                return Err(MessageBinWriteError::Overflow);
            },
        };
        let hdr = match sir0_header_bytes(poff, foff) {
            Some(h) => h,
            None => {
                proof {
                    assert(false);
                }
                return Err(MessageBinWriteError::Overflow);
            },
        };
        let ghost hdrv = hdr@;
        let ghost bodyv = body@;
        let ghost footv = footer@;
        let mut out: Vec<u8> = hdr;
        push_zeros(&mut out, 4);
        out.append(&mut body);
        let mut footer_v = footer;
        out.append(&mut footer_v);
        proof {
            assert(!layout_overflows(entries));
            lemma_assemble(
                entries,
                hdrv,
                bodyv,
                footv,
                out@,
                pad1 as nat,
                pad2 as nat,
            );
            assert(out@ == encoded_bytes(entries));
            if text_to_code is Some {
                let ws = entries.map_values(|e: (u32, u32, Seq<u16>)| e.2);
                assert(combine_entries(msgs, ws) =~= entries);
                assert(ws.len() == msgs.len() && !layout_overflows(combine_entries(msgs, ws))
                    && out@ == encoded_bytes(combine_entries(msgs, ws)));
            }
            if text_to_code is None && self.wf() && no_nul_texts(msgs) {
                lemma_store_roundtrip(msgs);
                lemma_encoded_segments(entries);
                lemma_blob_min_len(entries);
                let mid = zeros(4) + bodyv;
                assert(bodyv.len() == spec_foff - 16);
                assert(out@ =~= hdrv + mid + footv);
                assert(footv == sir0_footer_of(offs@));
                assert(offs@[0] == 4);
                assert(footv.len() >= 1);
                assert(sir0_parse_of(hdrv + mid + sir0_footer_of(offs@)) == Some(
                    (hdrv + mid).subrange(spec_poff, spec_foff),
                ));
                let hdr_blob = (hdrv + mid).subrange(spec_poff, spec_foff);
                assert(sir0_parse_of(out@) == Some(hdr_blob));
                assert(hdr_blob.len() >= 8);
                assert forall|x: int|
                    0 <= x < 8 implies hdr_blob[x] == (u32_le_bytes(entries.len() as u32)
                    + u32_le_bytes(spec_toff as u32))[x] by {
                    assert(hdr_blob[x] == (hdrv + mid)[spec_poff + x]);
                    assert((hdrv + mid)[spec_poff + x] == out@[spec_poff + x]);
                    assert(out@[spec_poff + x] == encoded_bytes(entries)[spec_poff + x]);
                }
                assert forall|k: int|
                    0 <= k < 4 implies #[trigger] hdr_blob[0 + k] == u32_le_bytes(
                    entries.len() as u32,
                )[k] by {
                    assert(hdr_blob[k] == (u32_le_bytes(entries.len() as u32) + u32_le_bytes(
                        spec_toff as u32,
                    ))[k]);
                }
                assert forall|k: int|
                    0 <= k < 4 implies #[trigger] hdr_blob[4 + k] == u32_le_bytes(
                    spec_toff as u32,
                )[k] by {
                    assert(hdr_blob[4 + k] == (u32_le_bytes(entries.len() as u32)
                        + u32_le_bytes(spec_toff as u32))[4 + k]);
                }
                lemma_u32_le_roundtrip(hdr_blob, 0, entries.len() as u32);
                lemma_u32_le_roundtrip(hdr_blob, 4, spec_toff as u32);
                assert(u32_at(hdr_blob, 0) == entries.len() as u32);
                assert(u32_at(hdr_blob, 4) == spec_toff as u32);
                assert(entries.len() <= 0xFFFFFFFF);
                assert(u32_at(hdr_blob, 0) as int == msgs.len());
                assert(u32_at(hdr_blob, 4) as int == table_offset(utf16_entries(msgs)));
                assert(decoded_store(
                    out@,
                    u32_at(hdr_blob, 0) as nat,
                    u32_at(hdr_blob, 4) as int,
                ) == Some(msgs));
            }
        }
        Ok(out)
    }
}


/// The code units stored at `off`, up to the zero terminator; `None` when
/// the data ends before a terminator.
pub open spec fn wide_at(b: Seq<u8>, off: int) -> Option<Seq<u16>>
    decreases b.len() - off,
{
    if off < 0 || off + 2 > b.len() {
        None
    } else if u16_at(b, off) == 0 {
        Some(Seq::empty())
    } else {
        match wide_at(b, off + 2) {
            Some(t) => Some(seq![u16_at(b, off)] + t),
            None => None,
        }
    }
}

/// The `n` records stored at `off`.
pub open spec fn parse_records(b: Seq<u8>, off: int, n: nat) -> Seq<(u32, u32, u32)>
    decreases n,
{
    if n == 0 {
        Seq::empty()
    } else {
        seq![(u32_at(b, off), u32_at(b, off + 4), u32_at(b, off + 8))] + parse_records(
            b,
            off + 12,
            (n - 1) as nat,
        )
    }
}

/// The wide units of each record's string, `None` when one is unterminated.
pub open spec fn raw_texts(b: Seq<u8>, rs: Seq<(u32, u32, u32)>) -> Option<Seq<Seq<u16>>>
    decreases rs.len(),
{
    if rs.len() == 0 {
        Some(Seq::empty())
    } else {
        match wide_at(b, rs[0].0 as int) {
            None => None,
            Some(w) => match raw_texts(b, rs.drop_first()) {
                None => None,
                Some(t) => Some(seq![w] + t),
            },
        }
    }
}

/// One dictionary insertion, as the store performs it.
pub open spec fn insert_msg(m: Seq<(u32, u32, Seq<char>)>, it: (u32, u32, Seq<char>)) -> Seq<
    (u32, u32, Seq<char>),
> {
    match find_hash(m, it.0) {
        Some(i) => m.update(i, it),
        None => m.push(it),
    }
}

/// The dictionary after inserting each item in order.
pub open spec fn fold_insert(
    acc: Seq<(u32, u32, Seq<char>)>,
    items: Seq<(u32, u32, Seq<char>)>,
) -> Seq<(u32, u32, Seq<char>)>
    decreases items.len(),
{
    if items.len() == 0 {
        acc
    } else {
        fold_insert(insert_msg(acc, items[0]), items.drop_first())
    }
}

/// Messages built from records and the texts read for them.
pub open spec fn combine_msgs(rs: Seq<(u32, u32, u32)>, texts: Seq<Seq<char>>) -> Seq<
    (u32, u32, Seq<char>),
> {
    Seq::new(rs.len(), |i: int| (rs[i].1, rs[i].2, texts[i]))
}

/// The store decoded from the data given the parsed header fields: records
/// are visited by ascending string pointer, each string read to its
/// terminator and decoded directly from its wide units.
pub open spec fn decoded_store(data: Seq<u8>, count: nat, toff: int) -> Option<
    Seq<(u32, u32, Seq<char>)>,
> {
    if toff < 0 || toff + 12 * count > data.len() {
        None
    } else {
        let sorted = sort_by_le(parse_records(data, toff, count), ptr_le());
        match raw_texts(data, sorted) {
            None => None,
            Some(ws) => Some(
                fold_insert(
                    Seq::empty(),
                    combine_msgs(sorted, ws.map_values(|w: Seq<u16>| utf16_decode(w))),
                ),
            ),
        }
    }
}

/// The texts exist together exactly when each one exists, and pointwise so.
proof fn lemma_raw_texts_pointwise(b: Seq<u8>, rs: Seq<(u32, u32, u32)>)
    ensures
        (raw_texts(b, rs) is Some) <==> (forall|j: int|
            0 <= j < rs.len() ==> wide_at(b, (#[trigger] rs[j]).0 as int) is Some),
        raw_texts(b, rs) is Some ==> {
            let ws = raw_texts(b, rs)->0;
            &&& ws.len() == rs.len()
            &&& forall|j: int|
                0 <= j < rs.len() ==> ws[j] == wide_at(b, (#[trigger] rs[j]).0 as int)->0
        },
    decreases rs.len(),
{
    if rs.len() > 0 {
        let t = rs.drop_first();
        lemma_raw_texts_pointwise(b, t);
        assert(forall|j: int| 0 <= j < t.len() ==> t[j] == rs[j + 1]);
        if raw_texts(b, rs) is Some {
            assert(wide_at(b, rs[0].0 as int) is Some);
            assert(raw_texts(b, t) is Some);
            assert forall|j: int|
                0 <= j < rs.len() implies wide_at(b, (#[trigger] rs[j]).0 as int) is Some by {
                if j > 0 {
                    assert(t[j - 1] == rs[j]);
                }
            }
            let ws = raw_texts(b, rs)->0;
            let wst = raw_texts(b, t)->0;
            assert(ws == seq![wide_at(b, rs[0].0 as int)->0] + wst);
            assert forall|j: int|
                0 <= j < rs.len() implies ws[j] == wide_at(b, (#[trigger] rs[j]).0 as int)->0
            by {
                if j > 0 {
                    assert(ws[j] == wst[j - 1]);
                    assert(rs[j] == t[j - 1]);
                }
            }
        } else {
            if forall|j: int| 0 <= j < rs.len() ==> wide_at(b, (#[trigger] rs[j]).0 as int)
                is Some {
                assert(wide_at(b, rs[0].0 as int) is Some);
                assert forall|j: int|
                    0 <= j < t.len() implies wide_at(b, (#[trigger] t[j]).0 as int) is Some by {
                    assert(t[j] == rs[j + 1]);
                }
                assert(raw_texts(b, t) is Some);
                assert(false);
            }
        }
    }
}

/// Inserting the items of a longer run is inserting the last one after the
/// rest.
proof fn lemma_fold_insert_snoc(
    acc: Seq<(u32, u32, Seq<char>)>,
    items: Seq<(u32, u32, Seq<char>)>,
    x: (u32, u32, Seq<char>),
)
    ensures
        fold_insert(acc, items.push(x)) == insert_msg(fold_insert(acc, items), x),
    decreases items.len(),
{
    if items.len() == 0 {
        assert(items.push(x)[0] == x);
        assert(items.push(x).drop_first() =~= Seq::<(u32, u32, Seq<char>)>::empty());
        assert(fold_insert(acc, items.push(x)) == fold_insert(
            insert_msg(acc, x),
            items.push(x).drop_first(),
        ));
        assert(fold_insert(insert_msg(acc, x), Seq::<(u32, u32, Seq<char>)>::empty())
            == insert_msg(acc, x));
        assert(fold_insert(acc, items) == acc);
    } else {
        assert(items.push(x)[0] == items[0]);
        assert(items.push(x).drop_first() =~= items.drop_first().push(x));
        lemma_fold_insert_snoc(insert_msg(acc, items[0]), items.drop_first(), x);
    }
}

/// Read the zero-terminated code units at `ptr`.
fn read_wide_at(data: &Vec<u8>, ptr: u32) -> (r: Result<Vec<u16>, ()>)
    ensures
        match wide_at(data@, ptr as int) {
            Some(w) => r matches Ok(v) && v@ == w,
            None => r is Err,
        },
{
    let n = data.len();
    let mut off: usize = ptr as usize;
    let mut out: Vec<u16> = Vec::new();
    if (ptr as u64) > (n as u64) {
        return Err(());
    }
    proof {
        assert(wide_at(data@, ptr as int) == (match wide_at(data@, off as int) {
            Some(t) => Some(out@ + t),
            None => None::<Seq<u16>>,
        })) by {
            if wide_at(data@, off as int) is Some {
                assert(out@ + wide_at(data@, off as int)->0 =~= wide_at(
                    data@,
                    off as int,
                )->0);
            }
        }
    }
    loop
        invariant
            n == data@.len(),
            off <= n,
            wide_at(data@, ptr as int) == (match wide_at(data@, off as int) {
                Some(t) => Some(out@ + t),
                None => None::<Seq<u16>>,
            }),
        decreases n - off,
    {
        if n - off < 2 {
            return Err(());
        }
        let u = crate::wide::read_u16_at(data, off);
        if u == 0 {
            proof {
                assert(wide_at(data@, off as int) == Some(Seq::<u16>::empty()));
                assert(out@ + Seq::<u16>::empty() =~= out@);
            }
            return Ok(out);
        }
        let ghost pre = out@;
        out.push(u);
        off += 2;
        proof {
            assert(wide_at(data@, (off - 2) as int) == (match wide_at(data@, off as int) {
                Some(t) => Some(seq![u] + t),
                None => None::<Seq<u16>>,
            }));
            if wide_at(data@, off as int) is Some {
                assert(pre + (seq![u] + wide_at(data@, off as int)->0) =~= out@ + wide_at(
                    data@,
                    off as int,
                )->0);
            }
        }
    }
}


impl MessageBin {
    /// Load a message file from its bytes: parse the Sir0 container, read
    /// `record_count` and `record_table_offset` from its header payload,
    /// read the records, and visit them by ascending string pointer,
    /// reading each zero-terminated wide string and inserting it into the
    /// dictionary; the optional code table converts each raw string, and
    /// without one the wide units are decoded directly.
    #[verifier::rlimit(100)]
    pub fn load_file(
        data: &Vec<u8>,
        code_to_text: Option<&pmd_code_table::CodeToText<'_>>,
    ) -> (r: Result<MessageBin, MessageBinReadError>)
        ensures
            r matches Ok(bin) ==> bin.wf(),
            match sir0_parse_of(data@) {
                None => r matches Err(e) && e is Sir0Error,
                Some(hdr) => {
                    if hdr.len() < 8 {
                        r matches Err(e) && e is Truncated
                    } else {
                        let count = u32_at(hdr, 0);
                        let toff = u32_at(hdr, 4);
                        let sorted = sort_by_le(
                            parse_records(data@, toff as int, count as nat),
                            ptr_le(),
                        );
                        &&& (toff as int + 12 * (count as int) > data@.len() ==> (r matches Err(
                            e,
                        ) && e is Truncated))
                        &&& (toff as int + 12 * (count as int) <= data@.len() && count == 0
                            ==> (r matches Ok(bin) && bin.msgs() == Seq::<
                            (u32, u32, Seq<char>),
                        >::empty()))
                        &&& (r matches Err(e) ==> (e is Truncated || e is CantDecodeString))
                        &&& (r matches Err(e) ==> (e is CantDecodeString ==> code_to_text
                            is Some && exists|j: int|
                            0 <= j < sorted.len() && wide_at(
                                data@,
                                (#[trigger] sorted[j]).0 as int,
                            ) is Some && e->CantDecodeString_1@ == utf16_decode(
                                wide_at(data@, sorted[j].0 as int)->0,
                            )))
                        &&& match decoded_store(data@, count as nat, toff as int) {
                            None => code_to_text is None ==> (r matches Err(e)
                                && e is Truncated),
                            Some(m) => {
                                &&& (r matches Err(e) ==> e is CantDecodeString)
                                &&& (code_to_text is None ==> (r matches Ok(bin) && bin.msgs()
                                    == m))
                                &&& (code_to_text is Some ==> (r matches Ok(bin)
                                    ==> exists|texts: Seq<Seq<char>>|
                                        bin.msgs() == fold_insert(
                                            Seq::empty(),
                                            combine_msgs(sorted, texts),
                                        )))
                            },
                        }
                    }
                },
            },
    {
        let hdr = match sir0_get_header(data) {
            Ok(h) => h,
            Err(e) => {
                return Err(MessageBinReadError::Sir0Error(e));
            },
        };
        if hdr.len() < 8 {
            return Err(MessageBinReadError::Truncated);
        }
        let count = crate::wide::read_u32_at(&hdr, 0);
        let toff = crate::wide::read_u32_at(&hdr, 4);
        let n_data = data.len();
        if (toff as u64) + 12 * (count as u64) > (n_data as u64) {
            return Err(MessageBinReadError::Truncated);
        }
        let count_us = count as usize;
        let toff_us = toff as usize;
        proof {
            assert(count_us == count as int);
            assert(toff_us == toff as int);
        }
        let mut recs: Vec<(u32, u32, u32)> = Vec::new();
        let mut i: usize = 0;
        proof {
            assert(recs@ + parse_records(data@, toff as int, count as nat) =~= parse_records(
                data@,
                toff as int,
                count as nat,
            ));
        }
        while i < count_us
            invariant
                n_data == data@.len(),
                toff as int + 12 * (count as int) <= n_data,
                count_us == count as int,
                toff_us == toff as int,
                0 <= i <= count_us,
                recs@.len() == i,
                recs@ + parse_records(data@, toff as int + 12 * i, (count_us - i) as nat)
                    == parse_records(data@, toff as int, count as nat),
            decreases count_us - i,
        {
            let off = toff_us + 12 * i;
            let r0 = crate::wide::read_u32_at(data, off);
            let r1 = crate::wide::read_u32_at(data, off + 4);
            let r2 = crate::wide::read_u32_at(data, off + 8);
            let ghost pre = recs@;
            recs.push((r0, r1, r2));
            proof {
                assert(parse_records(data@, off as int, (count_us - i) as nat) == seq![
                    (r0, r1, r2),
                ] + parse_records(data@, off + 12 as int, (count_us - i - 1) as nat));
                assert(pre + parse_records(data@, off as int, (count_us - i) as nat) =~= recs@
                    + parse_records(data@, off + 12 as int, (count_us - i - 1) as nat));
            }
            i += 1;
        }
        proof {
            assert(parse_records(data@, toff as int + 12 * (count_us as int), 0nat) == Seq::<
                (u32, u32, u32),
            >::empty());
            assert(recs@ + Seq::<(u32, u32, u32)>::empty() =~= recs@);
        }
        let sorted = sort_records_by_ptr(&recs);
        let ghost sorted_spec = sort_by_le(
            parse_records(data@, toff as int, count as nat),
            ptr_le(),
        );
        proof {
            lemma_sort_by_le_len(recs@, ptr_le());
        }
        let mut bin = MessageBin::default();
        let ghost mut texts: Seq<Seq<char>> = Seq::empty();
        let mut k: usize = 0;
        proof {
            assert(combine_msgs(sorted_spec.take(0), texts) =~= Seq::<
                (u32, u32, Seq<char>),
            >::empty());
        }
        while k < sorted.len()
            invariant
                n_data == data@.len(),
                sir0_parse_of(data@) is Some,
                sir0_parse_of(data@)->0.len() >= 8,
                count == u32_at(sir0_parse_of(data@)->0, 0),
                toff == u32_at(sir0_parse_of(data@)->0, 4),
                toff as int + 12 * (count as int) <= n_data,
                sorted@ == sorted_spec,
                sorted_spec == sort_by_le(
                    parse_records(data@, toff as int, count as nat),
                    ptr_le(),
                ),
                sorted_spec.len() == count as int,
                0 <= k <= sorted@.len(),
                texts.len() == k,
                bin.wf(),
                bin.msgs() == fold_insert(
                    Seq::empty(),
                    combine_msgs(sorted_spec.take(k as int), texts),
                ),
                code_to_text is None ==> (forall|j: int|
                    0 <= j < k ==> wide_at(data@, (#[trigger] sorted_spec[j]).0 as int) is Some
                        && texts[j] == utf16_decode(
                        wide_at(data@, sorted_spec[j].0 as int)->0,
                    )),
            decreases sorted@.len() - k,
        {
            let rec = sorted[k];
            let w: Vec<u16> = match read_wide_at(data, rec.0) {
                Ok(w) => w,
                Err(_) => {
                    proof {
                        lemma_raw_texts_pointwise(data@, sorted_spec);
                        assert(wide_at(data@, sorted_spec[k as int].0 as int) is None);
                        assert(raw_texts(data@, sorted_spec) is None);
                        assert(decoded_store(data@, count as nat, toff as int) is None);
                    }
                    return Err(MessageBinReadError::Truncated);
                },
            };
            let text: String = match code_to_text {
                Some(ct) => match crate::codetable::code_decode(ct, &w) {
                    Ok(t) => t,
                    Err(e) => {
                        proof {
                            assert(wide_at(data@, sorted_spec[k as int].0 as int) is Some);
                            assert(w@ == wide_at(data@, sorted_spec[k as int].0 as int)->0);
                        }
                        return Err(
                            MessageBinReadError::CantDecodeString(e, crate::wide::utf16_text(&w)),
                        );
                    },
                },
                None => crate::wide::utf16_text(&w),
            };
            let ghost old_msgs = bin.msgs();
            let ghost old_texts = texts;
            bin.insert(rec.1, rec.2, text);
            proof {
                texts = texts.push(text@);
                let item = (rec.1, rec.2, text@);
                assert(bin.msgs() == insert_msg(old_msgs, item)) by {
                    crate::store::lemma_find_hash(old_msgs, rec.1);
                }
                lemma_fold_insert_snoc(
                    Seq::empty(),
                    combine_msgs(sorted_spec.take(k as int), old_texts),
                    item,
                );
                assert(combine_msgs(sorted_spec.take(k + 1), texts) =~= combine_msgs(
                    sorted_spec.take(k as int),
                    old_texts,
                ).push(item));
            }
            k += 1;
        }
        proof {
            assert(sorted_spec.take(sorted_spec.len() as int) =~= sorted_spec);
            if count == 0 {
                assert(combine_msgs(sorted_spec.take(0), texts) =~= Seq::<
                    (u32, u32, Seq<char>),
                >::empty());
                assert(bin.msgs() =~= Seq::<(u32, u32, Seq<char>)>::empty());
            }
            if code_to_text is None {
                lemma_raw_texts_pointwise(data@, sorted_spec);
                assert(raw_texts(data@, sorted_spec) is Some);
                let ws = raw_texts(data@, sorted_spec)->0;
                assert(ws.len() == sorted_spec.len());
                assert forall|j: int|
                    0 <= j < texts.len() implies ws.map_values(|w: Seq<u16>| utf16_decode(w))[j]
                    == texts[j] by {
                    assert(ws[j] == wide_at(data@, (#[trigger] sorted_spec[j]).0 as int)->0);
                    assert(texts[j] == utf16_decode(
                        wide_at(data@, sorted_spec[j].0 as int)->0,
                    ));
                }
                assert(ws.map_values(|w: Seq<u16>| utf16_decode(w)) =~= texts);
                assert(decoded_store(data@, count as nat, toff as int) == Some(bin.msgs()));
            }
        }
        Ok(bin)
    }
}


/// Law: the record table of every written image is sorted by ascending
/// hash, whatever order the dictionary holds its messages in.
pub proof fn lemma_written_table_sorted(es: Seq<(u32, u32, Seq<u16>)>)
    ensures
        sorted_le(sort_by_le(records_of(es, 16), hash_le()), hash_le()),
{
    assert(forall|a: (u32, u32, u32), b: (u32, u32, u32)| #[trigger] hash_le()(a, b)
        || hash_le()(b, a));
    assert(forall|a: (u32, u32, u32), b: (u32, u32, u32), c: (u32, u32, u32)|
        (#[trigger] hash_le()(a, b) && #[trigger] hash_le()(b, c)) ==> hash_le()(a, c));
    lemma_sort_by_le_sorted(records_of(es, 16), hash_le());
}

/// Law: in every written image the string-data region starts at offset 16
/// and the record table at a 4-byte boundary; the footer at a 16-byte
/// boundary.
pub proof fn lemma_layout_aligned(es: Seq<(u32, u32, Seq<u16>)>)
    ensures
        table_offset(es) % 4 == 0,
        footer_offset(es) % 16 == 0,
{
    lemma_align4(16 + blob_bytes(es).len() as int);
    lemma_align16(payload_offset(es) + 8);
}


/// Bytes laid out as a record table parse back to the very records.
proof fn lemma_parse_table(b: Seq<u8>, off: int, rs: Seq<(u32, u32, u32)>)
    requires
        0 <= off,
        off + 12 * rs.len() <= b.len(),
        forall|x: int| 0 <= x < 12 * rs.len() ==> b[off + x] == table_bytes(rs)[x],
    ensures
        parse_records(b, off, rs.len() as nat) == rs,
    decreases rs.len(),
{
    if rs.len() > 0 {
        let t = rs.drop_first();
        lemma_table_bytes_len(rs);
        lemma_table_bytes_len(t);
        assert(record_bytes(rs[0]).len() == 12);
        assert forall|x: int| 0 <= x < 12 implies table_bytes(rs)[x] == record_bytes(rs[0])[x]
        by {
            assert(table_bytes(rs) == record_bytes(rs[0]) + table_bytes(t));
        }
        assert forall|k: int| 0 <= k < 4 implies b[off + k] == u32_le_bytes(rs[0].0)[k] by {
            assert(b[off + k] == table_bytes(rs)[k]);
            assert(record_bytes(rs[0])[k] == u32_le_bytes(rs[0].0)[k]);
        }
        assert forall|k: int| 0 <= k < 4 implies b[off + 4 + k] == u32_le_bytes(rs[0].1)[k] by {
            assert(b[off + (4 + k)] == table_bytes(rs)[4 + k]);
            assert(record_bytes(rs[0])[4 + k] == u32_le_bytes(rs[0].1)[k]);
        }
        assert forall|k: int| 0 <= k < 4 implies b[off + 8 + k] == u32_le_bytes(rs[0].2)[k] by {
            assert(b[off + (8 + k)] == table_bytes(rs)[8 + k]);
            assert(record_bytes(rs[0])[8 + k] == u32_le_bytes(rs[0].2)[k]);
        }
        lemma_u32_le_roundtrip(b, off, rs[0].0);
        lemma_u32_le_roundtrip(b, off + 4, rs[0].1);
        lemma_u32_le_roundtrip(b, off + 8, rs[0].2);
        assert(u32_at(b, off) == rs[0].0);
        assert(u32_at(b, off + 4) == rs[0].1);
        assert(u32_at(b, off + 8) == rs[0].2);
        assert forall|x: int| 0 <= x < 12 * t.len() implies b[off + 12 + x] == table_bytes(t)[x]
        by {
            assert(table_bytes(rs) == record_bytes(rs[0]) + table_bytes(t));
            assert(b[off + (12 + x)] == table_bytes(rs)[12 + x]);
        }
        lemma_parse_table(b, off + 12, t);
        assert(parse_records(b, off, rs.len() as nat) =~= rs);
    } else {
        assert(parse_records(b, off, 0nat) =~= rs);
    }
}

/// Bytes laid out as one entry read back as its units.
proof fn lemma_wide_at_entry(b: Seq<u8>, p: int, w: Seq<u16>)
    requires
        0 <= p,
        p + 2 * w.len() + 2 <= b.len(),
        forall|x: int| 0 <= x < 2 * w.len() + 2 ==> b[p + x] == entry_bytes(w)[x],
        forall|j: int| 0 <= j < w.len() ==> w[j] != 0,
    ensures
        wide_at(b, p) == Some(w),
    decreases w.len(),
{
    lemma_units_bytes_len(w);
    if w.len() == 0 {
        assert(b[p + 0] == entry_bytes(w)[0]);
        assert(b[p + 1] == entry_bytes(w)[1]);
        assert(entry_bytes(w)[0] == 0 && entry_bytes(w)[1] == 0);
        assert(u16_at(b, p) == 0);
        assert(wide_at(b, p) == Some(Seq::<u16>::empty()));
        assert(Seq::<u16>::empty() =~= w);
    } else {
        let t = w.drop_first();
        lemma_units_bytes_len(t);
        assert(units_bytes(w) == u16_le_bytes(w[0]) + units_bytes(t));
        assert forall|k: int| 0 <= k < 2 implies b[p + k] == u16_le_bytes(w[0])[k] by {
            assert(b[p + k] == entry_bytes(w)[k]);
            assert(entry_bytes(w)[k] == units_bytes(w)[k]);
        }
        lemma_u16_le_roundtrip(b, p, w[0]);
        assert(u16_at(b, p) == w[0]);
        assert(w[0] != 0);
        assert forall|x: int| 0 <= x < 2 * t.len() + 2 implies b[p + 2 + x] == entry_bytes(t)[x]
        by {
            assert(b[p + (2 + x)] == entry_bytes(w)[2 + x]);
            if x < 2 * t.len() {
                assert(entry_bytes(w)[2 + x] == units_bytes(w)[2 + x]);
                assert(units_bytes(w)[2 + x] == units_bytes(t)[x]);
                assert(entry_bytes(t)[x] == units_bytes(t)[x]);
            } else {
                assert(entry_bytes(w)[2 + x] == zeros(2)[2 + x - 2 * w.len()]);
                assert(entry_bytes(t)[x] == zeros(2)[x - 2 * t.len()]);
            }
        }
        assert(forall|j: int| 0 <= j < t.len() ==> t[j] != 0);
        lemma_wide_at_entry(b, p + 2, t);
        assert(wide_at(b, p) == Some(seq![w[0]] + t));
        assert(seq![w[0]] + t =~= w);
    }
}

/// Record pointers grow strictly along the entry list.
proof fn lemma_records_ptr_increasing(es: Seq<(u32, u32, Seq<u16>)>, base: int)
    requires
        0 <= base,
        base + blob_bytes(es).len() <= 0x100000000,
    ensures
        forall|i: int|
            0 <= i < es.len() ==> base <= (#[trigger] records_of(es, base)[i]).0,
        forall|i: int, j: int|
            0 <= i < j < es.len() ==> (#[trigger] records_of(es, base)[i]).0 < (
            #[trigger] records_of(es, base)[j]).0,
    decreases es.len(),
{
    if es.len() > 0 {
        let t = es.drop_first();
        let e0len = entry_bytes(es[0].2).len() as int;
        lemma_units_bytes_len(es[0].2);
        assert(e0len >= 2);
        assert(blob_bytes(es).len() == e0len + blob_bytes(t).len());
        lemma_records_ptr_increasing(t, base + e0len);
        lemma_records_of_len(es, base);
        lemma_records_of_len(t, base + e0len);
        assert(records_of(es, base)[0].0 == base);
        assert forall|i: int|
            1 <= i < es.len() implies records_of(es, base)[i] == records_of(t, base + e0len)[i
            - 1] by {
            assert(records_of(es, base) == seq![(base as u32, es[0].0, es[0].1)] + records_of(
                t,
                base + e0len,
            ));
        }
        assert forall|i: int|
            0 <= i < es.len() implies base <= (#[trigger] records_of(es, base)[i]).0 by {
            if i > 0 {
                assert(base + e0len <= records_of(t, base + e0len)[i - 1].0);
            }
        }
        assert forall|i: int, j: int|
            0 <= i < j < es.len() implies (#[trigger] records_of(es, base)[i]).0 < (
            #[trigger] records_of(es, base)[j]).0 by {
            if i == 0 {
                assert(base + e0len <= records_of(t, base + e0len)[j - 1].0);
            }
        }
    }
}

/// A pointer-sorted permutation of a strictly pointer-increasing record
/// list is that very list.
proof fn lemma_sorted_multiset_equal(a: Seq<(u32, u32, u32)>, b: Seq<(u32, u32, u32)>)
    requires
        a.to_multiset() == b.to_multiset(),
        forall|i: int, j: int|
            0 <= i < j < a.len() ==> (#[trigger] a[i]).0 < (#[trigger] a[j]).0,
        sorted_le(b, ptr_le()),
    ensures
        a == b,
    decreases a.len(),
{
    broadcast use vstd::seq_lib::group_to_multiset_ensures;
    broadcast use vstd::multiset::group_multiset_axioms;

    a.to_multiset_ensures();
    b.to_multiset_ensures();
    assert(a.to_multiset().len() == b.to_multiset().len());
    assert(a.len() == b.len());
    if a.len() == 0 {
        assert(a =~= b);
    } else {
        let x = a.last();
        let y = b.last();
        assert(b.to_multiset().contains(y));
        assert(a.contains(y));
        let k = choose|k: int| 0 <= k < a.len() && a[k] == y;
        assert(a.to_multiset().contains(x));
        assert(b.contains(x));
        let m = choose|m: int| 0 <= m < b.len() && b[m] == x;
        if m < b.len() - 1 {
            assert(ptr_le()(b[m], b[b.len() - 1]));
        }
        assert(x.0 <= y.0);
        if k < a.len() - 1 {
            assert(a[k].0 < a[a.len() - 1].0);
        }
        assert(y.0 <= x.0);
        assert(x.0 == y.0);
        if k < a.len() - 1 {
            assert(false);
        }
        assert(x == y);
        let a2 = a.drop_last();
        let b2 = b.drop_last();
        assert(a =~= a2.push(x));
        assert(b =~= b2.push(x));
        assert(a.to_multiset() == a2.to_multiset().insert(x));
        assert(b.to_multiset() == b2.to_multiset().insert(x));
        assert forall|e: (u32, u32, u32)|
            a2.to_multiset().count(e) == b2.to_multiset().count(e) by {
            assert(a.to_multiset().count(e) == a2.to_multiset().count(e) + (if e == x {
                1nat
            } else {
                0nat
            }));
            assert(b.to_multiset().count(e) == b2.to_multiset().count(e) + (if e == x {
                1nat
            } else {
                0nat
            }));
        }
        assert(a2.to_multiset() =~= b2.to_multiset());
        assert(forall|i: int, j: int|
            0 <= i < j < a2.len() ==> (#[trigger] a2[i]).0 < (#[trigger] a2[j]).0);
        assert forall|i: int, j: int| 0 <= i < j < b2.len() implies #[trigger] ptr_le()(
            b2[i],
            b2[j],
        ) by {
            assert(ptr_le()(b[i], b[j]));
        }
        lemma_sorted_multiset_equal(a2, b2);
        assert(a =~= b);
    }
}

/// Inserting items whose hashes are fresh and pairwise distinct appends
/// each of them.
proof fn lemma_fold_insert_unique(
    acc: Seq<(u32, u32, Seq<char>)>,
    items: Seq<(u32, u32, Seq<char>)>,
)
    requires
        forall|i: int, j: int|
            0 <= i < j < items.len() ==> (#[trigger] items[i]).0 != (#[trigger] items[j]).0,
        forall|i: int, j: int|
            0 <= i < acc.len() && 0 <= j < items.len() ==> (#[trigger] acc[i]).0 != (
            #[trigger] items[j]).0,
    ensures
        fold_insert(acc, items) == acc + items,
    decreases items.len(),
{
    if items.len() == 0 {
        assert(acc + items =~= acc);
    } else {
        let x = items[0];
        let t = items.drop_first();
        crate::store::lemma_find_hash(acc, x.0);
        assert(find_hash(acc, x.0) is None) by {
            if find_hash(acc, x.0) is Some {
                let i = find_hash(acc, x.0)->0;
                assert(acc[i].0 == items[0].0);
            }
        }
        assert(insert_msg(acc, x) == acc.push(x));
        assert(forall|j: int| 0 <= j < t.len() ==> t[j] == items[j + 1]);
        assert forall|i: int, j: int|
            0 <= i < acc.push(x).len() && 0 <= j < t.len() implies (
            #[trigger] acc.push(x)[i]).0 != (#[trigger] t[j]).0 by {
            assert(t[j] == items[j + 1]);
            if i < acc.len() {
                assert(acc[i].0 != items[j + 1].0);
            } else {
                assert(items[0].0 != items[j + 1].0);
            }
        }
        lemma_fold_insert_unique(acc.push(x), t);
        assert(acc.push(x) + t =~= acc + items);
    }
}


/// In data that holds the string region at `base`, each record points at
/// its own entry's bytes.
proof fn lemma_records_entry_bytes(
    es: Seq<(u32, u32, Seq<u16>)>,
    base: int,
    b: Seq<u8>,
    i: int,
)
    requires
        0 <= base,
        base + blob_bytes(es).len() <= 0x100000000,
        forall|x: int| 0 <= x < blob_bytes(es).len() ==> b[base + x] == blob_bytes(es)[x],
        0 <= i < es.len(),
    ensures
        ({
            let r = records_of(es, base)[i];
            &&& r.1 == es[i].0
            &&& r.2 == es[i].1
            &&& base <= r.0
            &&& r.0 + entry_bytes(es[i].2).len() <= base + blob_bytes(es).len()
            &&& forall|x: int|
                0 <= x < entry_bytes(es[i].2).len() ==> b[r.0 + x] == entry_bytes(es[i].2)[x]
        }),
    decreases i,
{
    let t = es.drop_first();
    let e0len = entry_bytes(es[0].2).len() as int;
    lemma_records_of_len(es, base);
    lemma_records_of_len(t, base + e0len);
    assert(blob_bytes(es) == entry_bytes(es[0].2) + blob_bytes(t));
    if i == 0 {
        let r = records_of(es, base)[0];
        assert(r == (base as u32, es[0].0, es[0].1));
        assert(r.0 == base);
        assert forall|x: int|
            0 <= x < entry_bytes(es[0].2).len() implies b[r.0 + x] == entry_bytes(es[0].2)[x]
        by {
            assert(b[base + x] == blob_bytes(es)[x]);
            assert(blob_bytes(es)[x] == entry_bytes(es[0].2)[x]);
        }
    } else {
        assert forall|x: int|
            0 <= x < blob_bytes(t).len() implies b[(base + e0len) + x] == blob_bytes(t)[x] by {
            assert(b[base + (e0len + x)] == blob_bytes(es)[e0len + x]);
            assert(blob_bytes(es)[e0len + x] == blob_bytes(t)[x]);
        }
        lemma_records_entry_bytes(t, base + e0len, b, i - 1);
        assert(records_of(es, base) == seq![(base as u32, es[0].0, es[0].1)] + records_of(
            t,
            base + e0len,
        ));
        assert(records_of(es, base)[i] == records_of(t, base + e0len)[i - 1]);
        assert(t[i - 1] == es[i]);
    }
}

/// Where the string region and the record table lie inside the whole image.
#[verifier::rlimit(100)]
proof fn lemma_encoded_segments(es: Seq<(u32, u32, Seq<u16>)>)
    ensures
        encoded_bytes(es).len() == footer_offset(es) + sir0_footer_of(sir0_offsets(es)).len(),
        forall|x: int|
            0 <= x < blob_bytes(es).len() ==> #[trigger] encoded_bytes(es)[16 + x]
                == blob_bytes(es)[x],
        forall|x: int|
            0 <= x < table_bytes(sort_by_le(records_of(es, 16), hash_le())).len()
                ==> #[trigger] encoded_bytes(es)[table_offset(es) + x] == table_bytes(
                sort_by_le(records_of(es, 16), hash_le()),
            )[x],
        forall|x: int|
            0 <= x < 8 ==> #[trigger] encoded_bytes(es)[payload_offset(es) + x] == (
            u32_le_bytes(es.len() as u32) + u32_le_bytes(table_offset(es) as u32))[x],
{
    reveal(encoded_bytes);
    lemma_footer_ge(es);
    lemma_records_of_len(es, 16);
    lemma_sort_by_le_len(records_of(es, 16), hash_le());
    lemma_table_bytes_len(sort_by_le(records_of(es, 16), hash_le()));
    let blob = blob_bytes(es);
    let toff = table_offset(es);
    let poff = payload_offset(es);
    let foff = footer_offset(es);
    let sorted = sort_by_le(records_of(es, 16), hash_le());
    let magic = seq![0x53u8, 0x49u8, 0x52u8, 0x30u8];
    let poff_bytes = u32_le_bytes(poff as u32);
    let foff_bytes = u32_le_bytes(foff as u32);
    let hdr_pad = zeros(4);
    let gap1 = zeros((toff - (16 + blob.len())) as nat);
    let table = table_bytes(sorted);
    let count_bytes = u32_le_bytes(es.len() as u32);
    let toff_bytes = u32_le_bytes(toff as u32);
    let gap2 = zeros((foff - (poff + 8)) as nat);
    let foot = sir0_footer_of(sir0_offsets(es));
    assert(encoded_bytes(es) == magic + poff_bytes + foff_bytes + hdr_pad + blob + gap1 + table + count_bytes + toff_bytes + gap2 + foot);
    assert(magic.len() == 4 && poff_bytes.len() == 4 && foff_bytes.len() == 4 && hdr_pad.len() == 4);
    assert(gap1.len() == toff - (16 + blob.len()));
    assert(table.len() == 12 * es.len());
    assert(count_bytes.len() == 4 && toff_bytes.len() == 4);
    assert(gap2.len() == foff - (poff + 8));
    assert(encoded_bytes(es).len() == foff + foot.len());
    assert forall|x: int|
        0 <= x < blob.len() implies #[trigger] encoded_bytes(es)[16 + x] == blob[x] by {
        assert((magic + poff_bytes + foff_bytes + hdr_pad).len() == 16);
        assert((magic + poff_bytes + foff_bytes + hdr_pad + blob)[16 + x] == blob[x]);
    }
    assert forall|x: int|
        0 <= x < table.len() implies #[trigger] encoded_bytes(es)[toff + x] == table[x] by {
        assert((magic + poff_bytes + foff_bytes + hdr_pad + blob + gap1).len() == toff);
        assert((magic + poff_bytes + foff_bytes + hdr_pad + blob + gap1 + table)[toff + x] == table[x]);
    }
}

/// No text holds the NUL character, which the format uses as terminator.
pub open spec fn no_nul_texts(msgs: Seq<(u32, u32, Seq<char>)>) -> bool {
    forall|i: int, j: int|
        0 <= i < msgs.len() && 0 <= j < msgs[i].2.len() ==> #[trigger] msgs[i].2[j] != '\u{0}'
}

/// Law: decoding an encoded store, from the header fields the writer put
/// in the image, yields exactly the original messages, in their order.
/// This holds for every store whose hashes are unique, whose texts hold no
/// NUL character, and whose layout fits the 32-bit range.
pub proof fn lemma_store_roundtrip(msgs: Seq<(u32, u32, Seq<char>)>)
    requires
        forall|i: int, j: int|
            0 <= i < j < msgs.len() ==> (#[trigger] msgs[i]).0 != (#[trigger] msgs[j]).0,
        no_nul_texts(msgs),
        !layout_overflows(utf16_entries(msgs)),
    ensures
        decoded_store(
            encoded_bytes(utf16_entries(msgs)),
            msgs.len() as nat,
            table_offset(utf16_entries(msgs)),
        ) == Some(msgs),
{
    broadcast use vstd::seq_lib::group_to_multiset_ensures;

    let es = utf16_entries(msgs);
    let b = encoded_bytes(es);
    let recs = records_of(es, 16);
    let sorted = sort_by_le(recs, hash_le());
    let toff = table_offset(es);
    let n = es.len();
    lemma_encoded_segments(es);
    lemma_footer_ge(es);
    lemma_records_of_len(es, 16);
    lemma_sort_by_le_len(recs, hash_le());
    lemma_table_bytes_len(sorted);
    assert(toff + 12 * n <= b.len());
    lemma_parse_table(b, toff, sorted);
    assert(parse_records(b, toff, n as nat) == sorted);
    assert(forall|a1: (u32, u32, u32), b1: (u32, u32, u32)| #[trigger] ptr_le()(a1, b1)
        || ptr_le()(b1, a1));
    assert(forall|a1: (u32, u32, u32), b1: (u32, u32, u32), c1: (u32, u32, u32)|
        (#[trigger] ptr_le()(a1, b1) && #[trigger] ptr_le()(b1, c1)) ==> ptr_le()(a1, c1));
    lemma_sort_by_le_sorted(sorted, ptr_le());
    lemma_sort_by_le_multiset(recs, hash_le());
    lemma_sort_by_le_multiset(sorted, ptr_le());
    lemma_records_ptr_increasing(es, 16);
    lemma_sorted_multiset_equal(recs, sort_by_le(sorted, ptr_le()));
    assert(sort_by_le(parse_records(b, toff, n as nat), ptr_le()) == recs);
    assert forall|i: int|
        0 <= i < recs.len() implies wide_at(b, (#[trigger] recs[i]).0 as int) == Some(
        es[i].2,
    ) && recs[i].1 == msgs[i].0 && recs[i].2 == msgs[i].1 by {
        lemma_records_entry_bytes(es, 16, b, i);
        assert(es[i] == (msgs[i].0, msgs[i].1, utf16_encode(msgs[i].2)));
        crate::wide::lemma_utf16_encode_no_zero(msgs[i].2);
        lemma_units_bytes_len(es[i].2);
        lemma_wide_at_entry(b, recs[i].0 as int, es[i].2);
    }
    lemma_raw_texts_pointwise(b, recs);
    assert(raw_texts(b, recs) is Some);
    let ws = raw_texts(b, recs)->0;
    let items = combine_msgs(recs, ws.map_values(|w: Seq<u16>| utf16_decode(w)));
    assert forall|i: int| 0 <= i < n implies items[i] == msgs[i] by {
        assert(ws[i] == wide_at(b, (#[trigger] recs[i]).0 as int)->0);
        assert(ws[i] == es[i].2);
        crate::wide::lemma_utf16_roundtrip(msgs[i].2);
        assert(utf16_decode(ws[i]) == msgs[i].2);
    }
    assert(items =~= msgs);
    lemma_fold_insert_unique(Seq::empty(), msgs);
    assert(Seq::<(u32, u32, Seq<char>)>::empty() + msgs =~= msgs);
    assert(decoded_store(b, n as nat, toff) == Some(msgs));
}

} // verus!
