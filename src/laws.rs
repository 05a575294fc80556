//! Laws of the decoder, proved over the layout model, and a model encoder
//! that writes containers in the layout the decoder reads.

use vstd::prelude::*;
use vstd::utf8::{decode_utf8, encode_utf8, valid_utf8};
use crate::DecodeError;
use crate::model::{
    be_u32, declared_count, decode, header_of, lemma_walk_error_persists, out_of_bounds,
    record_at, walk, Entry, DIRECTORY_START, END_MARKER, START_MARKER,
};

verus! {

/// The four big-endian bytes of `v`.
pub open spec fn be_bytes(v: int) -> Seq<u8> {
    seq![
        (v / 0x100 / 0x100 / 0x100 % 0x100) as u8,
        (v / 0x100 / 0x100 % 0x100) as u8,
        (v / 0x100 % 0x100) as u8,
        (v % 0x100) as u8,
    ]
}

/// The directory record of `e`, whose content is placed at `offset`.
#[verifier::opaque]
pub open spec fn record_bytes(e: Entry, offset: int) -> Seq<u8> {
    be_bytes(encode_utf8(e.0).len() as int) + encode_utf8(e.0) + be_bytes(offset) + be_bytes(
        e.1.len() as int,
    )
}

/// Total size of the contents of `es`.
pub open spec fn data_len(es: Seq<Entry>) -> int
    decreases es.len(),
{
    if es.len() == 0 {
        0
    } else {
        data_len(es.drop_last()) + es.last().1.len()
    }
}

/// Total size of the directory records of `es`.
pub open spec fn directory_len(es: Seq<Entry>) -> int
    decreases es.len(),
{
    if es.len() == 0 {
        0
    } else {
        directory_len(es.drop_last()) + 12 + encode_utf8(es.last().0).len()
    }
}

/// The directory records of `es`, for contents laid out back to back from `data_at`.
#[verifier::opaque]
pub open spec fn directory_bytes(es: Seq<Entry>, data_at: int) -> Seq<u8>
    decreases es.len(),
{
    if es.len() == 0 {
        seq![]
    } else {
        directory_bytes(es.drop_last(), data_at) + record_bytes(
            es.last(),
            data_at + data_len(es.drop_last()),
        )
    }
}

/// The contents of `es`, back to back.
#[verifier::opaque]
pub open spec fn data_bytes(es: Seq<Entry>) -> Seq<u8>
    decreases es.len(),
{
    if es.len() == 0 {
        seq![]
    } else {
        data_bytes(es.drop_last()) + es.last().1
    }
}

/// The size of the container that `encode` writes for `es`.
pub open spec fn encoded_len(es: Seq<Entry>) -> int {
    DIRECTORY_START + directory_len(es) + data_len(es)
}

/// The container holding `es`: header, file count, directory, then the data
/// region; the header's two declared lengths are free.
pub open spec fn encode(es: Seq<Entry>, len_index: u32, len_data: u32) -> Seq<u8> {
    encoded_prefix(es.len(), len_index, len_data) + directory_bytes(
        es,
        DIRECTORY_START + directory_len(es),
    ) + data_bytes(es)
}

proof fn lemma_be_bytes(v: int)
    requires
        0 <= v <= u32::MAX,
    ensures
        be_u32(be_bytes(v), 0) == v,
{
}

proof fn lemma_be_at(b: Seq<u8>, p: int, v: int)
    requires
        0 <= v <= u32::MAX,
        0 <= p,
        p + 4 <= b.len(),
        b.subrange(p, p + 4) == be_bytes(v),
    ensures
        be_u32(b, p) == v,
{
    lemma_be_bytes(v);
    assert(b[p] == b.subrange(p, p + 4)[0]);
    assert(b[p + 1] == b.subrange(p, p + 4)[1]);
    assert(b[p + 2] == b.subrange(p, p + 4)[2]);
    assert(b[p + 3] == b.subrange(p, p + 4)[3]);
}

proof fn lemma_lengths(es: Seq<Entry>, data_at: int)
    ensures
        directory_bytes(es, data_at).len() == directory_len(es),
        data_bytes(es).len() == data_len(es),
        directory_len(es) >= 12 * es.len(),
        data_len(es) >= 0,
    decreases es.len(),
{
    reveal(directory_bytes);
    reveal(data_bytes);
    reveal(record_bytes);
    if es.len() > 0 {
        lemma_lengths(es.drop_last(), data_at);
    }
}

proof fn lemma_prefix_lengths(es: Seq<Entry>, k: int)
    requires
        0 <= k <= es.len(),
    ensures
        directory_len(es.take(k)) <= directory_len(es),
        data_len(es.take(k)) <= data_len(es),
        k < es.len() ==> directory_len(es.take(k + 1)) == directory_len(es.take(k)) + 12
            + encode_utf8(es[k].0).len(),
        k < es.len() ==> data_len(es.take(k + 1)) == data_len(es.take(k)) + es[k].1.len(),
    decreases es.len(),
{
    if k < es.len() {
        assert(es.take(k + 1).drop_last() =~= es.take(k));
        lemma_prefix_lengths(es.drop_last(), k);
        assert(es.drop_last().take(k) =~= es.take(k));
        lemma_lengths(es.drop_last(), 0);
        lemma_lengths(es.take(k), 0);
        if k + 1 < es.len() {
            lemma_prefix_lengths(es.drop_last(), k + 1);
            assert(es.drop_last().take(k + 1) =~= es.take(k + 1));
        } else {
            assert(es.take(k + 1) =~= es);
        }
    } else {
        assert(es.take(k) =~= es);
    }
}

proof fn lemma_subrange_left(a: Seq<u8>, x: Seq<u8>, i: int, j: int)
    requires
        0 <= i <= j <= a.len(),
    ensures
        (a + x).subrange(i, j) == a.subrange(i, j),
{
    assert((a + x).subrange(i, j) =~= a.subrange(i, j));
}

proof fn lemma_subrange_right(a: Seq<u8>, x: Seq<u8>, i: int, j: int)
    requires
        a.len() <= i <= j <= a.len() + x.len(),
    ensures
        (a + x).subrange(i, j) == x.subrange(i - a.len(), j - a.len()),
{
    assert((a + x).subrange(i, j) =~= x.subrange(i - a.len(), j - a.len()));
}

proof fn lemma_record_slice(es: Seq<Entry>, data_at: int, k: int)
    requires
        0 <= k < es.len(),
    ensures
        directory_bytes(es, data_at).subrange(
            directory_len(es.take(k)),
            directory_len(es.take(k + 1)),
        ) == record_bytes(es[k], data_at + data_len(es.take(k))),
    decreases es.len(),
{
    reveal(directory_bytes);
    reveal(record_bytes);
    let d = directory_bytes(es.drop_last(), data_at);
    let r = record_bytes(es.last(), data_at + data_len(es.drop_last()));
    assert(directory_bytes(es, data_at) == d + r);
    lemma_lengths(es.drop_last(), data_at);
    lemma_prefix_lengths(es, k);
    let lo = directory_len(es.take(k));
    lemma_lengths(es.take(k), 0);
    let hi = directory_len(es.take(k + 1));
    if k == es.len() - 1 {
        assert(es.take(k) =~= es.drop_last());
        assert(es.take(k + 1) =~= es);
        lemma_subrange_right(d, r, lo, hi);
        assert(r.subrange(0, r.len() as int) =~= r);
    } else {
        lemma_record_slice(es.drop_last(), data_at, k);
        assert(es.drop_last().take(k) =~= es.take(k));
        assert(es.drop_last().take(k + 1) =~= es.take(k + 1));
        lemma_prefix_lengths(es.drop_last(), k);
        lemma_prefix_lengths(es.drop_last(), k + 1);
        lemma_subrange_left(d, r, lo, hi);
    }
}

proof fn lemma_content_slice(es: Seq<Entry>, k: int)
    requires
        0 <= k < es.len(),
    ensures
        data_bytes(es).subrange(data_len(es.take(k)), data_len(es.take(k)) + es[k].1.len())
            == es[k].1,
    decreases es.len(),
{
    reveal(data_bytes);
    let d = data_bytes(es.drop_last());
    let c = es.last().1;
    assert(data_bytes(es) == d + c);
    lemma_lengths(es.drop_last(), 0);
    lemma_prefix_lengths(es, k);
    let lo = data_len(es.take(k));
    lemma_lengths(es.take(k), 0);
    let hi = lo + es[k].1.len();
    if k == es.len() - 1 {
        assert(es.take(k) =~= es.drop_last());
        lemma_subrange_right(d, c, lo, hi);
        assert(c.subrange(0, c.len() as int) =~= c);
    } else {
        lemma_content_slice(es.drop_last(), k);
        assert(es.drop_last().take(k) =~= es.take(k));
        lemma_prefix_lengths(es.drop_last(), k);
        lemma_prefix_lengths(es.drop_last(), k + 1);
        assert(es.drop_last().take(k + 1) =~= es.take(k + 1));
        lemma_subrange_left(d, c, lo, hi);
    }
}

/// The fixed header and file count that `encode` writes before the directory.
#[verifier::opaque]
pub open spec fn encoded_prefix(n: nat, len_index: u32, len_data: u32) -> Seq<u8> {
    seq![START_MARKER, 0u8, 0u8, 0u8, 0u8] + be_bytes(len_index as int) + be_bytes(len_data as int)
        + seq![END_MARKER] + be_bytes(n as int)
}

proof fn lemma_encoded_prefix(n: nat, len_index: u32, len_data: u32)
    ensures
        ({
            let h = encoded_prefix(n, len_index, len_data);
            &&& h.len() == DIRECTORY_START
            &&& h[0] == START_MARKER
            &&& h[13] == END_MARKER
            &&& h[1] == 0 && h[2] == 0 && h[3] == 0 && h[4] == 0
            &&& h.subrange(14, 18) == be_bytes(n as int)
        }),
{
    reveal(encoded_prefix);
    assert(encoded_prefix(n, len_index, len_data).subrange(14, 18) =~= be_bytes(n as int));
}

proof fn lemma_record_from_bytes(b: Seq<u8>, p: int, off: int, e: Entry)
    requires
        0 <= p,
        p + 12 + encode_utf8(e.0).len() <= b.len(),
        b.subrange(p, p + 12 + encode_utf8(e.0).len()) == record_bytes(e, off),
        0 <= off,
        off + e.1.len() <= b.len(),
        b.subrange(off, off + e.1.len()) == e.1,
        encode_utf8(e.0).len() <= u32::MAX,
        off <= u32::MAX,
        e.1.len() <= u32::MAX,
    ensures
        record_at(b, p) == Ok::<(Entry, int), DecodeError>((e, p + 12 + encode_utf8(e.0).len())),
{
    reveal(record_bytes);
    let name = encode_utf8(e.0);
    let nl = name.len() as int;
    let size = e.1.len() as int;
    let q = p + 12 + nl;
    let r = record_bytes(e, off);
    assert forall|i: int| 0 <= i < q - p implies b[p + i] == r[i] by {
        assert(b.subrange(p, q)[i] == b[p + i]);
    }
    let base = p + 4 + nl;
    let fa = be_bytes(nl);
    let fo = be_bytes(off);
    let fs = be_bytes(size);
    assert(r == fa + name + fo + fs);
    assert forall|i: int| 0 <= i < 4 implies b[p + i] == fa[i] by {
        assert(r[i] == fa[i]);
    }
    assert forall|i: int| 0 <= i < nl implies b[p + 4 + i] == name[i] by {
        assert(r[4 + i] == name[i]);
    }
    assert forall|i: int| 0 <= i < 4 implies b[base + i] == fo[i] by {
        assert(r[4 + nl + i] == fo[i]);
    }
    assert forall|i: int| 0 <= i < 4 implies b[base + 4 + i] == fs[i] by {
        assert(r[8 + nl + i] == fs[i]);
    }
    assert(b.subrange(p, p + 4) =~= fa);
    assert(b.subrange(p + 4, base) =~= name);
    assert(b.subrange(base, base + 4) =~= fo);
    assert(b.subrange(base + 4, base + 8) =~= fs);
    lemma_be_at(b, p, nl);
    lemma_be_at(b, base, off);
    lemma_be_at(b, base + 4, size);
    vstd::utf8::encode_utf8_valid_utf8(e.0);
    vstd::utf8::encode_utf8_decode_utf8(e.0);
}

proof fn lemma_record_of_encoded(es: Seq<Entry>, len_index: u32, len_data: u32, k: int)
    requires
        0 <= k < es.len(),
        encoded_len(es) <= u32::MAX,
    ensures
        record_at(encode(es, len_index, len_data), DIRECTORY_START + directory_len(es.take(k)))
            == Ok::<(Entry, int), DecodeError>(
            (es[k], DIRECTORY_START + directory_len(es.take(k + 1))),
        ),
{
    let b = encode(es, len_index, len_data);
    let ds = DIRECTORY_START + directory_len(es);
    let h = encoded_prefix(es.len(), len_index, len_data);
    let d = directory_bytes(es, ds);
    let c = data_bytes(es);
    assert(b == h + d + c);
    lemma_lengths(es, ds);
    lemma_lengths(es.take(k), 0);
    lemma_prefix_lengths(es, k);
    lemma_prefix_lengths(es, k + 1);
    lemma_encoded_prefix(es.len(), len_index, len_data);
    lemma_record_slice(es, ds, k);
    lemma_content_slice(es, k);
    let p = DIRECTORY_START + directory_len(es.take(k));
    let q = DIRECTORY_START + directory_len(es.take(k + 1));
    let off = ds + data_len(es.take(k));
    let size = es[k].1.len() as int;
    lemma_subrange_left(h + d, c, p, q);
    lemma_subrange_right(h, d, p, q);
    lemma_subrange_right(h + d, c, off, off + size);
    lemma_record_from_bytes(b, p, off, es[k]);
}

proof fn lemma_walk_encoded(es: Seq<Entry>, len_index: u32, len_data: u32, k: nat)
    requires
        k <= es.len(),
        encoded_len(es) <= u32::MAX,
    ensures
        walk(encode(es, len_index, len_data), DIRECTORY_START as int, k) == Ok::<
            (Seq<Entry>, int),
            DecodeError,
        >((es.take(k as int), DIRECTORY_START + directory_len(es.take(k as int)))),
    decreases k,
{
    if k == 0 {
        assert(es.take(0) =~= Seq::<Entry>::empty());
    } else {
        lemma_walk_encoded(es, len_index, len_data, (k - 1) as nat);
        lemma_record_of_encoded(es, len_index, len_data, k - 1);
        assert(es.take(k - 1).push(es[k - 1]) =~= es.take(k as int));
    }
}

/// Round trip: decoding a container that `encode` wrote gives back exactly
/// the entries it was given, in the same order and with the same contents,
/// whatever the two declared lengths in its header. The one condition is that
/// the container is small enough for its offsets to fit the 32-bit fields.
pub proof fn lemma_decode_encode(es: Seq<Entry>, len_index: u32, len_data: u32)
    requires
        encoded_len(es) <= u32::MAX,
    ensures
        decode(encode(es, len_index, len_data)) == Ok::<Seq<Entry>, DecodeError>(es),
{
    let b = encode(es, len_index, len_data);
    let ds = DIRECTORY_START + directory_len(es);
    let h = encoded_prefix(es.len(), len_index, len_data);
    let d = directory_bytes(es, ds);
    let c = data_bytes(es);
    assert(b == h + d + c);
    lemma_lengths(es, ds);
    lemma_encoded_prefix(es.len(), len_index, len_data);
    assert(b[0] == START_MARKER && b[13] == END_MARKER);
    assert(b[1] == 0 && b[2] == 0 && b[3] == 0 && b[4] == 0);
    assert(header_of(b) is Ok);
    assert(b.subrange(14, 18) =~= be_bytes(es.len() as int)) by {
        lemma_subrange_left(h + d, c, 14, 18);
        lemma_subrange_left(h, d, 14, 18);
    }
    lemma_be_at(b, 14, es.len() as int);
    lemma_walk_encoded(es, len_index, len_data, es.len());
    assert(es.take(es.len() as int) =~= es);
}

/// Where the offset and size fields of the record at `p` stand.
pub open spec fn record_fields_at(b: Seq<u8>, p: int) -> int {
    p + 4 + be_u32(b, p)
}

/// The record at `p` has its name and both fields inside the buffer and its
/// name is UTF-8, but its declared content range runs past the buffer's end.
pub open spec fn content_overruns(b: Seq<u8>, p: int) -> bool {
    let base = record_fields_at(b, p);
    &&& base + 8 <= b.len()
    &&& valid_utf8(b.subrange(p + 4, base))
    &&& be_u32(b, base) + be_u32(b, base + 4) > b.len()
}

/// A record whose declared `offset + content_size` exceeds the buffer fails
/// the whole decode with `OutOfBounds` on that range, wherever it stands in
/// the directory: here it is the record reached after `k` good ones.
pub proof fn lemma_content_past_end(b: Seq<u8>, k: nat)
    requires
        b.len() >= DIRECTORY_START,
        header_of(b) is Ok,
        k < declared_count(b),
        walk(b, DIRECTORY_START as int, k) is Ok,
        content_overruns(b, walk(b, DIRECTORY_START as int, k)->Ok_0.1),
    ensures
        ({
            let base = record_fields_at(b, walk(b, DIRECTORY_START as int, k)->Ok_0.1);
            decode(b) == Err::<Seq<Entry>, DecodeError>(
                out_of_bounds(b, be_u32(b, base), be_u32(b, base + 4)),
            )
        }),
{
    lemma_walk_error_persists(b, DIRECTORY_START as int, k + 1, declared_count(b));
}

/// A record with an empty name decodes like any other: its name is empty and
/// its content is the declared range of the buffer.
pub proof fn lemma_empty_name(b: Seq<u8>, p: int)
    requires
        0 <= p,
        p + 12 <= b.len(),
        be_u32(b, p) == 0,
        be_u32(b, p + 4) + be_u32(b, p + 8) <= b.len(),
    ensures
        record_at(b, p) == Ok::<(Entry, int), DecodeError>(
            (
                (
                    Seq::<char>::empty(),
                    b.subrange(be_u32(b, p + 4), be_u32(b, p + 4) + be_u32(b, p + 8)),
                ),
                p + 12,
            ),
        ),
{
    let name = b.subrange(p + 4, p + 4);
    assert(name =~= Seq::<u8>::empty());
    assert(valid_utf8(name));
    assert(decode_utf8(name) =~= Seq::<char>::empty());
}

proof fn lemma_walk_len(b: Seq<u8>, pos: int, n: nat)
    requires
        walk(b, pos, n) is Ok,
    ensures
        walk(b, pos, n)->Ok_0.0.len() == n,
    decreases n,
{
    if n > 0 {
        lemma_walk_len(b, pos, (n - 1) as nat);
    }
}

proof fn lemma_walk_prefix(b: Seq<u8>, pos: int, n: nat, k: nat)
    requires
        walk(b, pos, n) is Ok,
        k < n,
    ensures
        walk(b, pos, k) is Ok,
        record_at(b, walk(b, pos, k)->Ok_0.1) is Ok,
        walk(b, pos, n)->Ok_0.0[k as int] == record_at(b, walk(b, pos, k)->Ok_0.1)->Ok_0.0,
        walk(b, pos, k + 1)->Ok_0.1 == record_at(b, walk(b, pos, k)->Ok_0.1)->Ok_0.1,
    decreases n,
{
    lemma_walk_len(b, pos, (n - 1) as nat);
    if k < n - 1 {
        lemma_walk_prefix(b, pos, (n - 1) as nat, k);
    }
}

/// Decoding keeps directory order: there is one entry per declared record,
/// and the `k`-th entry is the record that the walk reads after `k` records,
/// the next record starting where it ends, whatever the content offsets are.
pub proof fn lemma_decode_order(b: Seq<u8>, k: nat)
    requires
        decode(b) is Ok,
        k < decode(b)->Ok_0.len(),
    ensures
        decode(b)->Ok_0.len() == declared_count(b),
        walk(b, DIRECTORY_START as int, k) is Ok,
        record_at(b, walk(b, DIRECTORY_START as int, k)->Ok_0.1) is Ok,
        decode(b)->Ok_0[k as int] == record_at(b, walk(b, DIRECTORY_START as int, k)->Ok_0.1)->Ok_0.0,
        walk(b, DIRECTORY_START as int, k + 1)->Ok_0.1 == record_at(
            b,
            walk(b, DIRECTORY_START as int, k)->Ok_0.1,
        )->Ok_0.1,
{
    lemma_walk_len(b, DIRECTORY_START as int, declared_count(b));
    lemma_walk_prefix(b, DIRECTORY_START as int, declared_count(b), k);
}

} // verus!
