//! What an archive looks like from outside: where its fields stand, and what
//! its checksums notice.
use crate::bytes;
use crate::io::npy;
use crate::io::npz;
use crate::io::npz::NamedArrayView;
use crate::io::npz_laws;
use vstd::arithmetic::power2::*;
use vstd::prelude::*;
use vstd::utf8::*;

verus! {

proof fn lemma_step_injective(a: u32, b: u32)
    ensures
        npz::crc_step(a) == npz::crc_step(b) ==> a == b,
{
    assert(npz::crc_step(a) == npz::crc_step(b) ==> a == b) by (bit_vector);
}

/// Eight steps lose nothing.
proof fn lemma_byte_injective(a: u32, b: u32)
    ensures
        npz::crc_byte(a) == npz::crc_byte(b) ==> a == b,
{
    let (a1, b1) = (npz::crc_step(a), npz::crc_step(b));
    let (a2, b2) = (npz::crc_step(a1), npz::crc_step(b1));
    let (a3, b3) = (npz::crc_step(a2), npz::crc_step(b2));
    let (a4, b4) = (npz::crc_step(a3), npz::crc_step(b3));
    let (a5, b5) = (npz::crc_step(a4), npz::crc_step(b4));
    let (a6, b6) = (npz::crc_step(a5), npz::crc_step(b5));
    let (a7, b7) = (npz::crc_step(a6), npz::crc_step(b6));
    lemma_step_injective(a, b);
    lemma_step_injective(a1, b1);
    lemma_step_injective(a2, b2);
    lemma_step_injective(a3, b3);
    lemma_step_injective(a4, b4);
    lemma_step_injective(a5, b5);
    lemma_step_injective(a6, b6);
    lemma_step_injective(a7, b7);
}

proof fn lemma_register_detects(d: Seq<u8>, i: int, x: u8)
    requires
        0 <= i < d.len(),
        x != d[i],
    ensures
        npz::crc_register(d.update(i, x)) != npz::crc_register(d),
    decreases d.len(),
{
    let e = d.update(i, x);
    let last = d.len() - 1;
    if i < last {
        lemma_register_detects(d.drop_last(), i, x);
        assert(e.drop_last() =~= d.drop_last().update(i, x));
    } else {
        assert(e.drop_last() =~= d.drop_last());
    }
    let (p, q) = (npz::crc_register(e.drop_last()), npz::crc_register(d.drop_last()));
    let (y, z) = (e.last() as u32, d.last() as u32);
    assert((p != q && y == z) || (p == q && y != z));
    assert((p != q && y == z) || (p == q && y != z) ==> p ^ y != q ^ z) by (bit_vector);
    lemma_byte_injective(p ^ y, q ^ z);
}

/// A checksum notices every change of one byte, wherever it stands.
pub proof fn lemma_checksum_detects(d: Seq<u8>, i: int, x: u8)
    requires
        0 <= i < d.len(),
        x != d[i],
    ensures
        npz::crc_of(d.update(i, x)) != npz::crc_of(d),
{
    lemma_register_detects(d, i, x);
    let (p, q) = (npz::crc_register(d.update(i, x)), npz::crc_register(d));
    assert(p != q ==> p ^ 0xFFFF_FFFFu32 != q ^ 0xFFFF_FFFFu32) by (bit_vector);
}

/// The fields of a member's local header: `PK\3\4`, no flags, stored, the
/// checksum and the length of what is stored, the length of the name; then the
/// name with its extension, and the array.
pub proof fn lemma_local_record(a: NamedArrayView)
    requires
        npy::npy_bytes(a.shape, a.data).len() < 0xFFFF_FFFF,
        encode_utf8(a.name + ".npy"@).len() < 0x1_0000,
    ensures
        ({
            let r = npz::local_record(a);
            let name = encode_utf8(a.name + ".npy"@);
            let payload = npy::npy_bytes(a.shape, a.data);
            &&& r.len() == 30 + name.len() + payload.len()
            &&& r[0] == 0x50 && r[1] == 0x4B && r[2] == 3 && r[3] == 4
            &&& npz::field(r, 6, 2) == 0
            &&& npz::field(r, 8, 2) == 0
            &&& npz::field(r, 14, 4) == npz::crc_of(payload)
            &&& npz::field(r, 18, 4) == payload.len()
            &&& npz::field(r, 22, 4) == payload.len()
            &&& npz::field(r, 26, 2) == name.len()
            &&& npz::field(r, 28, 2) == 0
            &&& r.subrange(30, 30 + name.len() as int) == name
            &&& r.subrange(30 + name.len() as int, r.len() as int) == payload
        }),
{
    reveal(npz::common_fields);
    reveal(npz::local_record);
    npz_laws::lemma_field_lengths(a, 0);
    let r = npz::local_record(a);
    let payload = npy::npy_bytes(a.shape, a.data);
    let name = encode_utf8(npz::member_name(a.name));
    let crc = npz::crc_of(payload) as nat;
    lemma2_to64();
    bytes::lemma_le_bytes_len(20, 2);
    bytes::lemma_le_bytes_len(0, 2);
    bytes::lemma_le_bytes_len(crc, 4);
    bytes::lemma_le_bytes_len(payload.len(), 4);
    bytes::lemma_le_bytes_len(name.len(), 2);
    assert(r.subrange(6, 8) =~= bytes::le_bytes(0, 2));
    assert(r.subrange(8, 10) =~= bytes::le_bytes(0, 2));
    assert(r.subrange(14, 18) =~= bytes::le_bytes(crc, 4));
    assert(r.subrange(18, 22) =~= bytes::le_bytes(payload.len(), 4));
    assert(r.subrange(22, 26) =~= bytes::le_bytes(payload.len(), 4));
    assert(r.subrange(26, 28) =~= bytes::le_bytes(name.len(), 2));
    assert(r.subrange(28, 30) =~= bytes::le_bytes(0, 2));
    npz_laws::lemma_field(r, 6, 2, 0);
    npz_laws::lemma_field(r, 8, 2, 0);
    npz_laws::lemma_field(r, 14, 4, crc);
    npz_laws::lemma_field(r, 18, 4, payload.len());
    npz_laws::lemma_field(r, 22, 4, payload.len());
    npz_laws::lemma_field(r, 26, 2, name.len());
    npz_laws::lemma_field(r, 28, 2, 0);
    assert(r.subrange(30, 30 + name.len() as int) =~= name);
    assert(r.subrange(30 + name.len() as int, r.len() as int) =~= payload);
}

/// The fields of a member's directory entry: `PK\1\2`, stored, the same
/// checksum and lengths, where its local header stands, and its name.
pub proof fn lemma_central_record(a: NamedArrayView, off: nat)
    requires
        npy::npy_bytes(a.shape, a.data).len() < 0xFFFF_FFFF,
        encode_utf8(a.name + ".npy"@).len() < 0x1_0000,
        off < 0xFFFF_FFFF,
    ensures
        ({
            let r = npz::central_record(a, off);
            let name = encode_utf8(a.name + ".npy"@);
            let payload = npy::npy_bytes(a.shape, a.data);
            &&& r.len() == 46 + name.len()
            &&& r[0] == 0x50 && r[1] == 0x4B && r[2] == 1 && r[3] == 2
            &&& npz::field(r, 8, 2) == 0
            &&& npz::field(r, 10, 2) == 0
            &&& npz::field(r, 16, 4) == npz::crc_of(payload)
            &&& npz::field(r, 20, 4) == payload.len()
            &&& npz::field(r, 24, 4) == payload.len()
            &&& npz::field(r, 28, 2) == name.len()
            &&& npz::field(r, 30, 2) == 0
            &&& npz::field(r, 42, 4) == off
            &&& r.subrange(46, r.len() as int) == name
        }),
{
    reveal(npz::common_fields);
    reveal(npz::central_record);
    npz_laws::lemma_field_lengths(a, off);
    let r = npz::central_record(a, off);
    let payload = npy::npy_bytes(a.shape, a.data);
    let name = encode_utf8(npz::member_name(a.name));
    let crc = npz::crc_of(payload) as nat;
    lemma2_to64();
    bytes::lemma_le_bytes_len(20, 2);
    bytes::lemma_le_bytes_len(0, 2);
    bytes::lemma_le_bytes_len(0, 4);
    bytes::lemma_le_bytes_len(off, 4);
    bytes::lemma_le_bytes_len(crc, 4);
    bytes::lemma_le_bytes_len(payload.len(), 4);
    bytes::lemma_le_bytes_len(name.len(), 2);
    assert(r.subrange(8, 10) =~= bytes::le_bytes(0, 2));
    assert(r.subrange(10, 12) =~= bytes::le_bytes(0, 2));
    assert(r.subrange(16, 20) =~= bytes::le_bytes(crc, 4));
    assert(r.subrange(20, 24) =~= bytes::le_bytes(payload.len(), 4));
    assert(r.subrange(24, 28) =~= bytes::le_bytes(payload.len(), 4));
    assert(r.subrange(28, 30) =~= bytes::le_bytes(name.len(), 2));
    assert(r.subrange(30, 32) =~= bytes::le_bytes(0, 2));
    assert(r.subrange(42, 46) =~= bytes::le_bytes(off, 4));
    npz_laws::lemma_field(r, 8, 2, 0);
    npz_laws::lemma_field(r, 10, 2, 0);
    npz_laws::lemma_field(r, 16, 4, crc);
    npz_laws::lemma_field(r, 20, 4, payload.len());
    npz_laws::lemma_field(r, 24, 4, payload.len());
    npz_laws::lemma_field(r, 28, 2, name.len());
    npz_laws::lemma_field(r, 30, 2, 0);
    npz_laws::lemma_field(r, 42, 4, off);
    assert(r.subrange(46, r.len() as int) =~= name);
}

/// An archive holds the local record of each array behind those of the arrays
/// before it, and then in the same order the directory entries, each with the
/// place of its record.
pub proof fn lemma_archive(arrays: Seq<NamedArrayView>, i: int)
    requires
        0 <= i < arrays.len(),
    ensures
        ({
            let b = npz::npz_bytes(arrays);
            let all = npz::local_records(arrays).len() as int;
            let at = npz::local_records(arrays.take(i)).len() as int;
            let dir = all + npz::central_records(arrays.take(i)).len();
            let l = npz::local_record(arrays[i]);
            let c = npz::central_record(arrays[i], at as nat);
            &&& at + l.len() <= all
            &&& b.subrange(at, at + l.len()) == l
            &&& dir + c.len() + 22 <= b.len()
            &&& b.subrange(dir, dir + c.len()) == c
        }),
{
    npz_laws::lemma_record_positions(arrays, i);
    let b = npz::npz_bytes(arrays);
    let (ls, cs) = (npz::local_records(arrays), npz::central_records(arrays));
    let end = npz::final_record(arrays.len(), cs.len(), ls.len());
    bytes::lemma_le_bytes_len(0, 2);
    bytes::lemma_le_bytes_len(arrays.len(), 2);
    bytes::lemma_le_bytes_len(cs.len(), 4);
    bytes::lemma_le_bytes_len(ls.len(), 4);
    assert(end.len() == 22);
    let at = npz::local_records(arrays.take(i)).len() as int;
    let cp = npz::central_records(arrays.take(i)).len() as int;
    let l = npz::local_record(arrays[i]);
    let c = npz::central_record(arrays[i], at as nat);
    assert(b.subrange(at, at + l.len()) =~= ls.subrange(at, at + l.len()));
    assert(b.subrange(ls.len() + cp, ls.len() + cp + c.len()) =~= cs.subrange(cp, cp + c.len()));
}

} // verus!
