//! What writing an archive and reading it back gives.
use crate::bytes;
use crate::io::error::IoErrorView;
use crate::io::npy;
use crate::io::npy_laws;
use crate::io::npz;
use crate::io::npz::{EntryView, NamedArrayView};
use vstd::arithmetic::power2::*;
use vstd::prelude::*;
use vstd::utf8::*;

verus! {

/// Whether shape and data of an array agree and its header and file name fit
/// their length fields.
pub open spec fn storable(a: NamedArrayView) -> bool {
    &&& npy::checked_product(a.shape) == Some(a.data.len())
    &&& 4 * a.data.len() <= usize::MAX
    &&& npy::header_bytes(a.shape).len() <= 0xFFFF
    &&& encode_utf8(npz::member_name(a.name)).len() <= 0xFFFF
}

/// Whether an archive of these arrays stays within the plain ZIP format.
pub open spec fn fits(arrays: Seq<NamedArrayView>) -> bool {
    &&& arrays.len() < 0xFFFF
    &&& npz::local_records(arrays).len() < 0xFFFF_FFFF
    &&& npz::central_records(arrays).len() < 0xFFFF_FFFF
    &&& npz::npz_bytes(arrays).len() <= usize::MAX
    &&& forall|i: int| 0 <= i < arrays.len() ==> storable(#[trigger] arrays[i])
}

/// The directory entry of a member.
spec fn entry_of(a: NamedArrayView, off: nat) -> EntryView {
    EntryView {
        name: npz::member_name(a.name),
        method: 0,
        flags: 0,
        comp_size: npy::npy_bytes(a.shape, a.data).len(),
        local_off: off,
    }
}

/// A field of `count` bytes that holds `n` reads as `n`.
pub proof fn lemma_field(b: Seq<u8>, at: int, count: nat, n: nat)
    requires
        0 <= at,
        at + count <= b.len(),
        count <= 4,
        b.subrange(at, at + count) == bytes::le_bytes(n, count),
        n < pow2(8 * count),
    ensures
        npz::field(b, at, count as int) == n,
{
    bytes::lemma_le_round_trip(n, count);
}

pub proof fn lemma_field_lengths(a: NamedArrayView, off: nat)
    ensures
        npz::common_fields(a).len() == 26,
        npz::central_record(a, off).len() == 46 + encode_utf8(npz::member_name(a.name)).len(),
        npz::local_record(a).len() == 30 + encode_utf8(npz::member_name(a.name)).len()
            + npy::npy_bytes(a.shape, a.data).len(),
{
    reveal(npz::common_fields);
    reveal(npz::local_record);
    reveal(npz::central_record);
    let payload = npy::npy_bytes(a.shape, a.data);
    let name = encode_utf8(npz::member_name(a.name));
    bytes::lemma_le_bytes_len(20, 2);
    bytes::lemma_le_bytes_len(0, 2);
    bytes::lemma_le_bytes_len(0, 4);
    bytes::lemma_le_bytes_len(off, 4);
    bytes::lemma_le_bytes_len(npz::crc_of(payload) as nat, 4);
    bytes::lemma_le_bytes_len(payload.len(), 4);
    bytes::lemma_le_bytes_len(name.len(), 2);
}

/// The parts of the shared fields, by position.
proof fn lemma_common_parts(a: NamedArrayView)
    ensures
        npz::common_fields(a).subrange(2, 4) == bytes::le_bytes(0, 2),
        npz::common_fields(a).subrange(4, 6) == bytes::le_bytes(0, 2),
        npz::common_fields(a).subrange(14, 18) == bytes::le_bytes(
            npy::npy_bytes(a.shape, a.data).len(),
            4,
        ),
        npz::common_fields(a).subrange(22, 24) == bytes::le_bytes(
            encode_utf8(npz::member_name(a.name)).len(),
            2,
        ),
        npz::common_fields(a).subrange(24, 26) == bytes::le_bytes(0, 2),
{
    reveal(npz::common_fields);
    let payload = npy::npy_bytes(a.shape, a.data);
    let name = encode_utf8(npz::member_name(a.name));
    bytes::lemma_le_bytes_len(20, 2);
    bytes::lemma_le_bytes_len(0, 2);
    bytes::lemma_le_bytes_len(npz::crc_of(payload) as nat, 4);
    bytes::lemma_le_bytes_len(payload.len(), 4);
    bytes::lemma_le_bytes_len(name.len(), 2);
    let c = npz::common_fields(a);
    assert(c.subrange(2, 4) =~= bytes::le_bytes(0, 2));
    assert(c.subrange(4, 6) =~= bytes::le_bytes(0, 2));
    assert(c.subrange(14, 18) =~= bytes::le_bytes(payload.len(), 4));
    assert(c.subrange(22, 24) =~= bytes::le_bytes(name.len(), 2));
    assert(c.subrange(24, 26) =~= bytes::le_bytes(0, 2));
}

/// A directory entry reads back as what it was written from.
proof fn lemma_entry(b: Seq<u8>, at: int, a: NamedArrayView, off: nat)
    requires
        storable(a),
        npy::npy_bytes(a.shape, a.data).len() < 0xFFFF_FFFF,
        off < 0xFFFF_FFFF,
        0 <= at,
        b.len() <= usize::MAX,
        at + npz::central_record(a, off).len() <= b.len(),
        b.subrange(at, at + npz::central_record(a, off).len()) == npz::central_record(a, off),
    ensures
        npz::entry_at(b, at) == Ok::<(EntryView, int), IoErrorView>(
            (entry_of(a, off), at + npz::central_record(a, off).len()),
        ),
{
    reveal(npz::central_record);
    reveal(npz::entry_at);
    let rec = npz::central_record(a, off);
    let name = encode_utf8(npz::member_name(a.name));
    let payload = npy::npy_bytes(a.shape, a.data);
    let c = npz::common_fields(a);
    lemma2_to64();
    lemma_field_lengths(a, off);
    lemma_common_parts(a);
    bytes::lemma_le_bytes_len(20, 2);
    bytes::lemma_le_bytes_len(0, 2);
    bytes::lemma_le_bytes_len(0, 4);
    bytes::lemma_le_bytes_len(off, 4);
    let h = b.subrange(at, at + 46);
    assert(h =~= rec.take(46));
    assert(h.take(4) =~= npz::signature(1, 2));
    assert(rec.subrange(6, 32) =~= c);
    assert(h.subrange(8, 10) =~= c.subrange(2, 4));
    lemma_field(h, 8, 2, 0);
    assert(h.subrange(10, 12) =~= c.subrange(4, 6));
    lemma_field(h, 10, 2, 0);
    assert(h.subrange(20, 24) =~= c.subrange(14, 18));
    lemma_field(h, 20, 4, payload.len());
    assert(h.subrange(28, 30) =~= c.subrange(22, 24));
    lemma_field(h, 28, 2, name.len());
    assert(h.subrange(30, 32) =~= c.subrange(24, 26));
    lemma_field(h, 30, 2, 0);
    assert(h.subrange(32, 34) =~= bytes::le_bytes(0, 2));
    lemma_field(h, 32, 2, 0);
    assert(h.subrange(42, 46) =~= bytes::le_bytes(off, 4));
    lemma_field(h, 42, 4, off);
    assert(b.subrange(at + 46, at + 46 + name.len()) =~= rec.skip(46));
    assert(rec.skip(46) =~= name);
    encode_utf8_valid_utf8(npz::member_name(a.name));
    encode_utf8_decode_utf8(npz::member_name(a.name));
}

/// A member reads back as the array that it was written from.
proof fn lemma_member(b: Seq<u8>, a: NamedArrayView, off: nat)
    requires
        storable(a),
        npy::npy_bytes(a.shape, a.data).len() < 0xFFFF_FFFF,
        b.len() <= usize::MAX,
        off + npz::local_record(a).len() <= b.len(),
        b.subrange(off as int, (off + npz::local_record(a).len()) as int) == npz::local_record(a),
    ensures
        npz::member(b, entry_of(a, off)) == Ok::<NamedArrayView, IoErrorView>(a),
{
    reveal(npz::local_record);
    reveal(npz::member);
    let rec = npz::local_record(a);
    let name = encode_utf8(npz::member_name(a.name));
    let payload = npy::npy_bytes(a.shape, a.data);
    let c = npz::common_fields(a);
    lemma2_to64();
    lemma_field_lengths(a, off);
    lemma_common_parts(a);
    let h = b.subrange(off as int, off as int + 30);
    assert(h =~= rec.take(30));
    assert(h.take(4) =~= npz::signature(3, 4));
    assert(h.subrange(26, 28) =~= c.subrange(22, 24));
    lemma_field(h, 26, 2, name.len());
    assert(h.subrange(28, 30) =~= c.subrange(24, 26));
    lemma_field(h, 28, 2, 0);
    let from = off + 30 + name.len();
    assert(rec.skip((30 + name.len()) as int) =~= payload);
    assert(b.subrange(from as int, (from + payload.len()) as int) =~= rec.skip(
        (30 + name.len()) as int,
    ));
    npy_laws::lemma_npy_round_trip(a.shape, a.data);
    reveal_strlit(".npy");
    let file = npz::member_name(a.name);
    assert(file.skip(file.len() - 4) =~= ".npy"@);
    assert(file.take(file.len() - 4) =~= a.name);
}

/// Where the records of the `i`-th array stand.
pub proof fn lemma_record_positions(arrays: Seq<NamedArrayView>, i: int)
    requires
        0 <= i < arrays.len(),
    ensures
        ({
            let lp = npz::local_records(arrays.take(i)).len() as int;
            let cp = npz::central_records(arrays.take(i)).len() as int;
            let l = npz::local_record(arrays[i]);
            let c = npz::central_record(arrays[i], lp as nat);
            &&& lp + l.len() <= npz::local_records(arrays).len()
            &&& npz::local_records(arrays).subrange(lp, lp + l.len()) == l
            &&& cp + c.len() <= npz::central_records(arrays).len()
            &&& npz::central_records(arrays).subrange(cp, cp + c.len()) == c
            &&& npz::central_records(arrays.take(i + 1)).len() == cp + c.len()
        }),
    decreases arrays.len(),
{
    let front = arrays.drop_last();
    let lp = npz::local_records(arrays.take(i)).len() as int;
    let cp = npz::central_records(arrays.take(i)).len() as int;
    let l = npz::local_record(arrays[i]);
    let c = npz::central_record(arrays[i], lp as nat);
    assert(arrays.take(i + 1).drop_last() =~= arrays.take(i));
    if i == arrays.len() - 1 {
        assert(arrays.take(i) =~= front);
        assert(npz::local_records(arrays).subrange(lp, lp + l.len()) =~= l);
        assert(npz::central_records(arrays).subrange(cp, cp + c.len()) =~= c);
    } else {
        assert(front.take(i) =~= arrays.take(i));
        assert(front.take(i + 1) =~= arrays.take(i + 1));
        assert(front[i] == arrays[i]);
        lemma_record_positions(front, i);
        assert(npz::local_records(arrays).subrange(lp, lp + l.len()) =~= npz::local_records(
            front,
        ).subrange(lp, lp + l.len()));
        assert(npz::central_records(arrays).subrange(cp, cp + c.len()) =~= npz::central_records(
            front,
        ).subrange(cp, cp + c.len()));
    }
}

/// The directory entries from the `i`-th array on.
spec fn entries_from(arrays: Seq<NamedArrayView>, i: int) -> Seq<EntryView> {
    Seq::new(
        (arrays.len() - i) as nat,
        |k: int|
            entry_of(arrays[i + k], npz::local_records(arrays.take(i + k)).len()),
    )
}

proof fn lemma_payload_fits(arrays: Seq<NamedArrayView>, i: int)
    requires
        fits(arrays),
        0 <= i < arrays.len(),
    ensures
        npy::npy_bytes(arrays[i].shape, arrays[i].data).len() < 0xFFFF_FFFF,
        npz::local_records(arrays.take(i)).len() < 0xFFFF_FFFF,
        storable(arrays[i]),
{
    lemma_record_positions(arrays, i);
    lemma_field_lengths(arrays[i], 0);
}

/// A part of the first of three sequences.
proof fn lemma_first_part(x: Seq<u8>, y: Seq<u8>, z: Seq<u8>, from: int, to: int)
    requires
        0 <= from <= to <= x.len(),
    ensures
        (x + y + z).subrange(from, to) == x.subrange(from, to),
{
    assert((x + y + z).subrange(from, to) =~= x.subrange(from, to));
}

/// A part of the second of three sequences.
proof fn lemma_second_part(x: Seq<u8>, y: Seq<u8>, z: Seq<u8>, from: int, to: int)
    requires
        0 <= from <= to <= y.len(),
    ensures
        (x + y + z).subrange(x.len() + from, x.len() + to) == y.subrange(from, to),
{
    assert((x + y + z).subrange(x.len() + from, x.len() + to) =~= y.subrange(from, to));
}

/// Where the `i`-th directory entry stands in the archive.
spec fn entry_position(arrays: Seq<NamedArrayView>, i: int) -> int {
    npz::local_records(arrays).len() as int + npz::central_records(arrays.take(i)).len()
}

proof fn lemma_entry_read(arrays: Seq<NamedArrayView>, i: int)
    requires
        fits(arrays),
        0 <= i < arrays.len(),
    ensures
        npz::entry_at(npz::npz_bytes(arrays), entry_position(arrays, i)) == Ok::<
            (EntryView, int),
            IoErrorView,
        >(
            (
                entry_of(arrays[i], npz::local_records(arrays.take(i)).len()),
                entry_position(arrays, i + 1),
            ),
        ),
{
    let b = npz::npz_bytes(arrays);
    let locals = npz::local_records(arrays);
    let centrals = npz::central_records(arrays);
    lemma_record_positions(arrays, i);
    lemma_payload_fits(arrays, i);
    let off = npz::local_records(arrays.take(i)).len();
    let cp = npz::central_records(arrays.take(i)).len() as int;
    let c = npz::central_record(arrays[i], off);
    lemma_second_part(
        locals,
        centrals,
        npz::final_record(arrays.len(), centrals.len(), locals.len()),
        cp,
        cp + c.len(),
    );
    lemma_entry(b, entry_position(arrays, i), arrays[i], off);
}

proof fn lemma_member_read(arrays: Seq<NamedArrayView>, i: int)
    requires
        fits(arrays),
        0 <= i < arrays.len(),
    ensures
        npz::member(
            npz::npz_bytes(arrays),
            entry_of(arrays[i], npz::local_records(arrays.take(i)).len()),
        ) == Ok::<NamedArrayView, IoErrorView>(arrays[i]),
{
    let b = npz::npz_bytes(arrays);
    let locals = npz::local_records(arrays);
    let centrals = npz::central_records(arrays);
    lemma_record_positions(arrays, i);
    lemma_payload_fits(arrays, i);
    let off = npz::local_records(arrays.take(i)).len();
    let l = npz::local_record(arrays[i]);
    lemma_first_part(
        locals,
        centrals,
        npz::final_record(arrays.len(), centrals.len(), locals.len()),
        off as int,
        (off + l.len()) as int,
    );
    lemma_member(b, arrays[i], off);
}

/// Reading the directory gives the entries that were written.
proof fn lemma_entries(arrays: Seq<NamedArrayView>, i: int)
    requires
        fits(arrays),
        0 <= i <= arrays.len(),
    ensures
        npz::entries_at(
            npz::npz_bytes(arrays),
            entry_position(arrays, i),
            (arrays.len() - i) as nat,
        ) == Ok::<Seq<EntryView>, IoErrorView>(entries_from(arrays, i)),
    decreases arrays.len() - i,
{
    if i < arrays.len() {
        lemma_entry_read(arrays, i);
        lemma_entries(arrays, i + 1);
        let off = npz::local_records(arrays.take(i)).len();
        assert(seq![entry_of(arrays[i], off)] + entries_from(arrays, i + 1) =~= entries_from(
            arrays,
            i,
        ));
    } else {
        assert(entries_from(arrays, i) =~= seq![]);
    }
}

/// The file name of a member does not name a directory.
proof fn lemma_no_directory(name: Seq<char>)
    ensures
        npz::member_name(name).len() > 0,
        npz::member_name(name).last() == 'y',
{
    reveal_strlit(".npy");
}

/// Reading the members gives the arrays that were written.
proof fn lemma_members(arrays: Seq<NamedArrayView>, i: int)
    requires
        fits(arrays),
        0 <= i <= arrays.len(),
    ensures
        npz::members(npz::npz_bytes(arrays), entries_from(arrays, i)) == Ok::<
            Seq<NamedArrayView>,
            IoErrorView,
        >(arrays.skip(i)),
    decreases arrays.len() - i,
{
    let es = entries_from(arrays, i);
    if i < arrays.len() {
        lemma_member_read(arrays, i);
        lemma_members(arrays, i + 1);
        let off = npz::local_records(arrays.take(i)).len();
        assert(es[0] == entry_of(arrays[i], off));
        assert(es.skip(1) =~= entries_from(arrays, i + 1));
        lemma_no_directory(arrays[i].name);
        assert(seq![arrays[i]] + arrays.skip(i + 1) =~= arrays.skip(i));
    } else {
        assert(es =~= seq![]);
        assert(arrays.skip(i) =~= seq![]);
    }
}

/// The end record is found at the end, with what was written to it.
proof fn lemma_end_record(arrays: Seq<NamedArrayView>)
    requires
        fits(arrays),
    ensures
        ({
            let b = npz::npz_bytes(arrays);
            let i = b.len() - 22;
            &&& b.len() >= 22
            &&& npz::end_record(b) == Some(i)
            &&& npz::field(b, i + 10, 2) == arrays.len()
            &&& npz::field(b, i + 12, 4) == npz::central_records(arrays).len()
            &&& npz::field(b, i + 16, 4) == npz::local_records(arrays).len()
        }),
{
    let locals = npz::local_records(arrays);
    let centrals = npz::central_records(arrays);
    let body = locals + centrals;
    let tail = npz::final_record(arrays.len(), centrals.len(), locals.len());
    let b = body + tail;
    lemma2_to64();
    bytes::lemma_le_bytes_len(0, 2);
    bytes::lemma_le_bytes_len(arrays.len(), 2);
    bytes::lemma_le_bytes_len(centrals.len(), 4);
    bytes::lemma_le_bytes_len(locals.len(), 4);
    assert(tail.len() == 22);
    let i = body.len() as int;
    assert(tail.take(4) =~= npz::signature(5, 6));
    assert(b.subrange(i, i + 4) =~= tail.take(4));
    assert(tail.subrange(20, 22) =~= bytes::le_bytes(0, 2));
    assert(b.subrange(i + 20, i + 22) =~= tail.subrange(20, 22));
    lemma_field(b, i + 20, 2, 0);
    assert(npz::is_end_record(b, i));
    assert(tail.subrange(10, 12) =~= bytes::le_bytes(arrays.len(), 2));
    assert(b.subrange(i + 10, i + 12) =~= tail.subrange(10, 12));
    lemma_field(b, i + 10, 2, arrays.len());
    assert(tail.subrange(12, 16) =~= bytes::le_bytes(centrals.len(), 4));
    assert(b.subrange(i + 12, i + 16) =~= tail.subrange(12, 16));
    lemma_field(b, i + 12, 4, centrals.len());
    assert(tail.subrange(16, 20) =~= bytes::le_bytes(locals.len(), 4));
    assert(b.subrange(i + 16, i + 20) =~= tail.subrange(16, 20));
    lemma_field(b, i + 16, 4, locals.len());
}

/// Reading an archive written from `arrays` gives the arrays back in order:
/// names, shapes and the bits of the data.
pub proof fn lemma_npz_round_trip(arrays: Seq<NamedArrayView>)
    requires
        fits(arrays),
    ensures
        npz::npz_arrays(npz::npz_bytes(arrays)) == Ok::<Seq<NamedArrayView>, IoErrorView>(arrays),
{
    lemma_end_record(arrays);
    assert(arrays.take(0) =~= seq![]);
    assert(npz::central_records(arrays.take(0)).len() == 0);
    lemma_entries(arrays, 0);
    lemma_members(arrays, 0);
    assert(arrays.skip(0) =~= arrays);
}

} // verus!
