//! `.npz`: minimal ZIP reader (stored entries only) and writer.
//!
//! `np.savez` writes a plain ZIP with one `.npy` member per array, no
//! compression, no data descriptors, no ZIP64. Anything else is rejected
//! with an actionable message.
use crate::bytes;
use crate::io::error::{malformed, unsupported, IoError, IoErrorView};
use crate::io::npy;
use crate::io::npy::{read_npy_bytes, write_npy_bytes, RawArray, RawArrayView};
use crate::single;
use crate::text;
use vstd::prelude::*;
use vstd::string::*;

verus! {

/// One named array from an archive: row-major binary32 data plus shape.
#[derive(Debug, Clone)]
pub struct NamedArray {
    pub name: String,
    pub shape: Vec<usize>,
    /// Bit patterns of the elements.
    pub data: Vec<u32>,
}

#[verifier::ext_equal]
pub struct NamedArrayView {
    pub name: Seq<char>,
    pub shape: Seq<usize>,
    pub data: Seq<u32>,
}

impl View for NamedArray {
    type V = NamedArrayView;

    open spec fn view(&self) -> NamedArrayView {
        NamedArrayView { name: self.name@, shape: self.shape@, data: self.data@ }
    }
}

impl NamedArrayView {
    /// The same name and shape and equal numbers.
    pub open spec fn same(self, other: NamedArrayView) -> bool {
        &&& self.name == other.name
        &&& self.shape == other.shape
        &&& single::same_numbers(self.data, other.data)
    }
}

impl PartialEq for NamedArray {
    /// The same name and shape and equal numbers.
    fn eq(&self, other: &Self) -> (r: bool) {
        text::same_text(self.name.as_str(), other.name.as_str()) && npy::same_shape(
            self.shape.as_slice(),
            other.shape.as_slice(),
        ) && single::equal_lists(self.data.as_slice(), other.data.as_slice())
    }
}

impl vstd::std_specs::cmp::PartialEqSpecImpl for NamedArray {
    open spec fn obeys_eq_spec() -> bool {
        true
    }

    open spec fn eq_spec(&self, other: &Self) -> bool {
        self@.same(other@)
    }
}

/// The models of a sequence of arrays.
pub open spec fn views(arrays: Seq<NamedArray>) -> Seq<NamedArrayView> {
    Seq::new(arrays.len(), |i: int| arrays[i]@)
}

/// The position of the first array called `name`.
pub open spec fn index_of_name(arrays: Seq<NamedArrayView>, name: Seq<char>) -> Option<int>
    decreases arrays.len(),
{
    if arrays.len() == 0 {
        None
    } else {
        match index_of_name(arrays.drop_last(), name) {
            Some(i) => Some(i),
            None => if arrays.last().name == name {
                Some(arrays.len() - 1)
            } else {
                None
            },
        }
    }
}

proof fn lemma_first_name(arrays: Seq<NamedArrayView>, name: Seq<char>, at: int)
    requires
        0 <= at <= arrays.len(),
        forall|j: int| 0 <= j < at ==> (#[trigger] arrays[j]).name != name,
        at < arrays.len() ==> arrays[at].name == name,
    ensures
        index_of_name(arrays, name) == (if at < arrays.len() {
            Some(at)
        } else {
            None
        }),
    decreases arrays.len(),
{
    if arrays.len() > 0 {
        let front = arrays.drop_last();
        assert forall|j: int| 0 <= j < front.len() && j < at implies (#[trigger] front[j]).name
            != name by {
            assert(arrays[j].name != name);
        }
        if at < arrays.len() - 1 {
            assert(front[at] == arrays[at]);
            lemma_first_name(front, name, at);
        } else {
            lemma_first_name(front, name, arrays.len() - 1);
        }
    }
}

/// A name that is found stands in the list.
pub proof fn lemma_index_of_name(arrays: Seq<NamedArrayView>, name: Seq<char>)
    ensures
        index_of_name(arrays, name) matches Some(i) ==> 0 <= i < arrays.len() && arrays[i].name
            == name,
    decreases arrays.len(),
{
    if arrays.len() > 0 {
        lemma_index_of_name(arrays.drop_last(), name);
    }
}

impl NamedArray {
    /// The number of elements that the shape calls for.
    pub fn numel(&self) -> (r: usize)
        requires
            npy::checked_product(self.shape@) is Some,
        ensures
            r == npy::product(self.shape@),
    {
        proof {
            npy::lemma_checked_product(self.shape@);
        }
        match npy::element_count(self.shape.as_slice()) {
            Some(n) => n,
            None => 0,
        }
    }

    /// Looks up an array by name: the first one so called.
    pub fn find<'a>(arrays: &'a [NamedArray], name: &str) -> (r: Option<&'a NamedArray>)
        ensures
            match r {
                Some(a) => index_of_name(views(arrays@), name@) matches Some(i) && 0 <= i
                    < arrays@.len() && arrays@[i] == a,
                None => index_of_name(views(arrays@), name@) is None,
            },
    {
        let mut i: usize = 0;
        while i < arrays.len()
            invariant
                i <= arrays@.len(),
                forall|j: int| 0 <= j < i ==> (#[trigger] views(arrays@)[j]).name != name@,
            decreases arrays@.len() - i,
        {
            if text::same_text(arrays[i].name.as_str(), name) {
                proof {
                    lemma_first_name(views(arrays@), name@, i as int);
                }
                return Some(&arrays[i]);
            }
            i = i + 1;
        }
        proof {
            lemma_first_name(views(arrays@), name@, i as int);
        }
        None
    }
}

/// One step of the division by the reflected CRC-32 polynomial.
pub open spec fn crc_step(c: u32) -> u32 {
    if c & 1 == 1 {
        0xEDB8_8320 ^ (c >> 1)
    } else {
        c >> 1
    }
}

/// `n` steps.
pub open spec fn crc_steps(c: u32, n: nat) -> u32
    decreases n,
{
    if n == 0 {
        c
    } else {
        crc_step(crc_steps(c, (n - 1) as nat))
    }
}

/// Eight steps.
pub open spec fn crc_byte(c: u32) -> u32 {
    crc_step(crc_step(crc_step(crc_step(crc_step(crc_step(crc_step(crc_step(c))))))))
}

/// The register after the bytes of `data`.
pub open spec fn crc_register(data: Seq<u8>) -> u32
    decreases data.len(),
{
    if data.len() == 0 {
        0xFFFF_FFFF
    } else {
        crc_byte(crc_register(data.drop_last()) ^ (data.last() as u32))
    }
}

/// The ISO-HDLC CRC-32 of `data`.
pub open spec fn crc_of(data: Seq<u8>) -> u32 {
    crc_register(data) ^ 0xFFFF_FFFF
}

/// Only the low byte of the register takes part in eight steps of division.
proof fn lemma_crc_byte_low(c: u32)
    ensures
        crc_byte(c) == crc_byte(c & 0xFF) ^ (c >> 8),
{
    assert(crc_byte(c) == crc_byte(c & 0xFF) ^ (c >> 8)) by (bit_vector);
}

/// ISO-HDLC CRC-32, by a table of 256 entries.
pub fn crc32(data: &[u8]) -> (r: u32)
    ensures
        r == crc_of(data@),
{
    let mut table: Vec<u32> = Vec::new();
    let mut i: u32 = 0;
    while i < 256
        invariant
            i <= 256,
            table@.len() == i,
            forall|k: int| 0 <= k < i ==> #[trigger] table@[k] == crc_byte(k as u32),
        decreases 256 - i,
    {
        let mut c: u32 = i;
        let mut n: u32 = 0;
        while n < 8
            invariant
                n <= 8,
                c == crc_steps(i, n as nat),
            decreases 8 - n,
        {
            assert(c & 1 == 0 || c & 1 == 1) by (bit_vector);
            c = if c & 1 != 0 {
                0xEDB8_8320u32 ^ (c >> 1)
            } else {
                c >> 1
            };
            n = n + 1;
        }
        proof {
            reveal_with_fuel(crc_steps, 9);
        }
        table.push(c);
        i = i + 1;
    }
    let mut crc: u32 = 0xFFFF_FFFF;
    let mut j: usize = 0;
    assert(data@.take(0) =~= seq![]);
    while j < data.len()
        invariant
            j <= data@.len(),
            table@.len() == 256,
            forall|k: int| 0 <= k < 256 ==> #[trigger] table@[k] == crc_byte(k as u32),
            crc == crc_register(data@.take(j as int)),
        decreases data@.len() - j,
    {
        let b: u8 = data[j];
        let low: u32 = (crc ^ (b as u32)) & 0xFF;
        let x: u32 = crc ^ (b as u32);
        proof {
            assert(x & 0xFF <= 0xFF) by (bit_vector);
            assert(low == x & 0xFF);
            lemma_crc_byte_low(x);
            let w = b as u32;
            assert((crc ^ w) >> 8 == crc >> 8) by (bit_vector)
                requires
                    w <= 0xFF,
            ;
            assert(data@.take(j + 1).drop_last() =~= data@.take(j as int));
        }
        crc = table[low as usize] ^ (crc >> 8);
        j = j + 1;
    }
    assert(data@.take(data@.len() as int) =~= data@);
    crc ^ 0xFFFF_FFFF
}

/// The little-endian integer of `count` bytes at `at`.
pub open spec fn field(b: Seq<u8>, at: int, count: int) -> nat {
    bytes::le_value(b.subrange(at, at + count))
}

/// The little-endian `u16` at the start of `b`.
pub fn u16le(b: &[u8]) -> (r: usize)
    requires
        b@.len() >= 2,
    ensures
        r == field(b@, 0, 2),
        r <= 0xFFFF,
{
    let f = vstd::slice::slice_subrange(b, 0, 2);
    proof {
        bytes::lemma_le_value_bound(f@);
        vstd::arithmetic::power2::lemma2_to64();
    }
    bytes::read_le(f) as usize
}

/// The little-endian `u32` at the start of `b`.
pub fn u32le(b: &[u8]) -> (r: usize)
    requires
        b@.len() >= 4,
    ensures
        r == field(b@, 0, 4),
        r <= 0xFFFF_FFFF,
{
    let f = vstd::slice::slice_subrange(b, 0, 4);
    proof {
        bytes::lemma_le_value_bound(f@);
        vstd::arithmetic::power2::lemma2_to64();
    }
    bytes::read_le(f) as usize
}

fn u16_at(b: &[u8], at: usize) -> (r: usize)
    requires
        at + 2 <= b@.len(),
    ensures
        r == field(b@, at as int, 2),
        r <= 0xFFFF,
{
    let t = vstd::slice::slice_subrange(b, at, b.len());
    assert(t@.subrange(0, 2) =~= b@.subrange(at as int, at + 2));
    u16le(t)
}

fn u32_at(b: &[u8], at: usize) -> (r: usize)
    requires
        at + 4 <= b@.len(),
    ensures
        r == field(b@, at as int, 4),
        r <= 0xFFFF_FFFF,
{
    let t = vstd::slice::slice_subrange(b, at, b.len());
    assert(t@.subrange(0, 4) =~= b@.subrange(at as int, at + 4));
    u32le(t)
}

/// `len` bytes at `off`, or what is wrong with that range.
pub open spec fn range(b: Seq<u8>, off: int, len: int, what: Seq<char>) -> Result<
    Seq<u8>,
    IoErrorView,
> {
    if off + len > usize::MAX {
        Err(IoErrorView::Malformed(what + " out of bounds"@))
    } else if off + len > b.len() {
        Err(IoErrorView::Malformed("truncated "@ + what))
    } else {
        Ok(b.subrange(off, off + len))
    }
}

/// `len` bytes of `data` at `off`; `what` names them in an error.
pub fn slice<'a>(data: &'a [u8], off: usize, len: usize, what: &str) -> (r: Result<
    &'a [u8],
    IoError,
>)
    ensures
        match r {
            Ok(s) => range(data@, off as int, len as int, what@) == Ok::<Seq<u8>, IoErrorView>(s@),
            Err(e) => range(data@, off as int, len as int, what@) == Err::<Seq<u8>, IoErrorView>(
                e@,
            ),
        },
{
    match off.checked_add(len) {
        None => {
            let mut m = what.to_owned();
            m.append(" out of bounds");
            Err(IoError::Malformed(m))
        },
        Some(end) => if end > data.len() {
            let mut m = "truncated ".to_owned();
            m.append(what);
            Err(IoError::Malformed(m))
        } else {
            Ok(vstd::slice::slice_subrange(data, off, end))
        },
    }
}

/// `PK` and two more bytes.
pub open spec fn signature(x: u8, y: u8) -> Seq<u8> {
    seq![0x50u8, 0x4B, x, y]
}

fn has_signature(b: &[u8], at: usize, x: u8, y: u8) -> (r: bool)
    requires
        at + 4 <= b@.len(),
    ensures
        r == (b@.subrange(at as int, at + 4) == signature(x, y)),
{
    let r = b[at] == 0x50 && b[at + 1] == 0x4B && b[at + 2] == x && b[at + 3] == y;
    proof {
        let s = b@.subrange(at as int, at + 4);
        if r {
            assert(s =~= signature(x, y));
        } else {
            assert(s[0] == b@[at as int] && s[1] == b@[at + 1] && s[2] == b@[at + 2] && s[3]
                == b@[at + 3]);
        }
    }
    r
}

/// Whether an end-of-central-directory record stands at `i` whose comment
/// reaches to the end of the file.
pub open spec fn is_end_record(b: Seq<u8>, i: int) -> bool {
    &&& 0 <= i && i + 22 <= b.len()
    &&& b.subrange(i, i + 4) == signature(5, 6)
    &&& i + 22 + field(b, i + 20, 2) == b.len()
}

/// The last end record not after `i` and not before `low`.
pub open spec fn end_record_from(b: Seq<u8>, i: int, low: int) -> Option<int>
    decreases i - low + 1,
{
    if i < low {
        None
    } else if is_end_record(b, i) {
        Some(i)
    } else {
        end_record_from(b, i - 1, low)
    }
}

/// The end record; a comment is at most 65535 bytes long.
pub open spec fn end_record(b: Seq<u8>) -> Option<int> {
    end_record_from(b, b.len() - 22, if b.len() < 22 + 65535 {
        0
    } else {
        b.len() - 22 - 65535
    })
}

fn find_end_record(b: &[u8]) -> (r: Option<usize>)
    requires
        b@.len() >= 22,
    ensures
        match r {
            Some(i) => end_record(b@) == Some(i as int) && i + 22 <= b@.len(),
            None => end_record(b@) is None,
        },
{
    let total: usize = b.len();
    let low: usize = if total < 22 + 65535 {
        0
    } else {
        total - 22 - 65535
    };
    let mut i: usize = total - 22;
    loop
        invariant
            total == b@.len(),
            low <= i,
            i + 22 <= total,
            end_record(b@) == end_record_from(b@, i as int, low as int),
        decreases i,
    {
        if has_signature(b, i, 5, 6) {
            let comment: usize = u16_at(b, i + 20);
            if total - i - 22 == comment {
                return Some(i);
            }
        }
        if i == low {
            return None;
        }
        i = i - 1;
    }
}

/// An entry of the central directory.
pub struct Entry {
    pub name: String,
    pub method: usize,
    pub flags: usize,
    pub comp_size: usize,
    pub local_off: usize,
}

#[verifier::ext_equal]
pub struct EntryView {
    pub name: Seq<char>,
    pub method: nat,
    pub flags: nat,
    pub comp_size: nat,
    pub local_off: nat,
}

impl View for Entry {
    type V = EntryView;

    open spec fn view(&self) -> EntryView {
        EntryView {
            name: self.name@,
            method: self.method as nat,
            flags: self.flags as nat,
            comp_size: self.comp_size as nat,
            local_off: self.local_off as nat,
        }
    }
}

pub open spec fn entry_views(entries: Seq<Entry>) -> Seq<EntryView> {
    Seq::new(entries.len(), |i: int| entries[i]@)
}

pub open spec fn zip64() -> IoErrorView {
    IoErrorView::Unsupported("zip64 archives"@)
}

/// The directory entry at `off` and where the next one begins.
#[verifier::opaque]
pub open spec fn entry_at(b: Seq<u8>, off: int) -> Result<(EntryView, int), IoErrorView> {
    match range(b, off, 46, "central header"@) {
        Err(e) => Err(e),
        Ok(h) => {
            let name_len = field(h, 28, 2);
            if h.take(4) != signature(1, 2) {
                Err(IoErrorView::Malformed("bad central header magic"@))
            } else if field(h, 20, 4) == 0xFFFF_FFFF || field(h, 42, 4) == 0xFFFF_FFFF {
                Err(zip64())
            } else {
                match range(b, off + 46, name_len as int, "entry name"@) {
                    Err(e) => Err(e),
                    Ok(raw) => if !vstd::utf8::valid_utf8(raw) {
                        Err(IoErrorView::Malformed("entry name is not UTF-8"@))
                    } else {
                        Ok(
                            (
                                EntryView {
                                    name: vstd::utf8::decode_utf8(raw),
                                    method: field(h, 10, 2),
                                    flags: field(h, 8, 2),
                                    comp_size: field(h, 20, 4),
                                    local_off: field(h, 42, 4),
                                },
                                off + 46 + name_len + field(h, 30, 2) + field(h, 32, 2),
                            ),
                        )
                    },
                }
            }
        },
    }
}

/// `count` consecutive directory entries from `off` on.
pub open spec fn entries_at(b: Seq<u8>, off: int, count: nat) -> Result<
    Seq<EntryView>,
    IoErrorView,
>
    decreases count,
{
    if count == 0 {
        Ok(seq![])
    } else {
        match entry_at(b, off) {
            Err(e) => Err(e),
            Ok((entry, next)) => match entries_at(b, next, (count - 1) as nat) {
                Err(e) => Err(e),
                Ok(rest) => Ok(seq![entry] + rest),
            },
        }
    }
}

/// All directory entries of an archive.
pub open spec fn directory(b: Seq<u8>) -> Result<Seq<EntryView>, IoErrorView> {
    if b.len() < 22 {
        Err(IoErrorView::Malformed("file smaller than ZIP EOCD"@))
    } else {
        match end_record(b) {
            None => Err(IoErrorView::Malformed("no ZIP end-of-central-directory"@)),
            Some(i) => {
                let count = field(b, i + 10, 2);
                let size = field(b, i + 12, 4);
                let off = field(b, i + 16, 4);
                if count == 0xFFFF || size == 0xFFFF_FFFF || off == 0xFFFF_FFFF {
                    Err(zip64())
                } else {
                    match range(b, off as int, size as int, "central directory"@) {
                        Err(e) => Err(e),
                        Ok(_) => entries_at(b, off as int, count),
                    }
                }
            },
        }
    }
}

/// `name` without a trailing `.npy`.
pub open spec fn array_name(name: Seq<char>) -> Seq<char> {
    if name.len() >= 4 && name.skip(name.len() - 4) == ".npy"@ {
        name.take(name.len() - 4)
    } else {
        name
    }
}

/// The array that an entry refers to.
#[verifier::opaque]
pub open spec fn member(b: Seq<u8>, e: EntryView) -> Result<NamedArrayView, IoErrorView> {
    let quoted = text::debug_quoted(e.name);
    if e.flags % 2 == 1 {
        Err(IoErrorView::Unsupported("encrypted entry "@ + quoted))
    } else if (e.flags / 8) % 2 == 1 {
        Err(
            IoErrorView::Unsupported(
                "entry "@ + quoted + " uses a data descriptor (not written by numpy)"@,
            ),
        )
    } else if e.method != 0 {
        Err(
            IoErrorView::Unsupported(
                "entry "@ + quoted + " uses compression method "@ + text::decimal(e.method)
                    + " (np.savez_compressed output); resave with np.savez (uncompressed)"@,
            ),
        )
    } else {
        match range(b, e.local_off as int, 30, "local header"@) {
            Err(x) => Err(x),
            Ok(h) => if h.take(4) != signature(3, 4) {
                Err(IoErrorView::Malformed("bad local header for "@ + quoted))
            } else {
                let off = e.local_off + 30 + field(h, 26, 2) + field(h, 28, 2);
                match range(b, off as int, e.comp_size as int, "entry data"@) {
                    Err(x) => Err(x),
                    Ok(raw) => match npy::npy_array(raw) {
                        Err(IoErrorView::Malformed(m)) => Err(
                            IoErrorView::Malformed(quoted + ": "@ + m),
                        ),
                        Err(x) => Err(x),
                        Ok(a) => Ok(
                            NamedArrayView {
                                name: array_name(e.name),
                                shape: a.shape,
                                data: a.data,
                            },
                        ),
                    },
                }
            },
        }
    }
}

/// The arrays that entries refer to; a name ending in a slash is a directory.
pub open spec fn members(b: Seq<u8>, entries: Seq<EntryView>) -> Result<
    Seq<NamedArrayView>,
    IoErrorView,
>
    decreases entries.len(),
{
    if entries.len() == 0 {
        Ok(seq![])
    } else {
        let e = entries[0];
        if e.name.len() > 0 && e.name.last() == '/' {
            members(b, entries.skip(1))
        } else {
            match member(b, e) {
                Err(x) => Err(x),
                Ok(a) => match members(b, entries.skip(1)) {
                    Err(x) => Err(x),
                    Ok(rest) => Ok(seq![a] + rest),
                },
            }
        }
    }
}

/// The arrays of a `.npz` buffer, in archive order.
pub open spec fn npz_arrays(b: Seq<u8>) -> Result<Seq<NamedArrayView>, IoErrorView> {
    match directory(b) {
        Err(e) => Err(e),
        Ok(entries) => members(b, entries),
    }
}

fn read_entry(b: &[u8], off: usize) -> (r: Result<(Entry, usize), IoError>)
    ensures
        match r {
            Ok((entry, next)) => entry_at(b@, off as int) matches Ok((ev, nv)) && ev == entry@
                && next == (if nv <= usize::MAX {
                nv
            } else {
                usize::MAX as int
            }),
            Err(e) => entry_at(b@, off as int) == Err::<(EntryView, int), IoErrorView>(e@),
        },
{
    proof {
        reveal(entry_at);
    }
    let h = match slice(b, off, 46, "central header") {
        Ok(h) => h,
        Err(e) => {
            return Err(e);
        },
    };
    assert(h@.subrange(0, 4) =~= h@.take(4));
    if !has_signature(h, 0, 1, 2) {
        return Err(malformed("bad central header magic"));
    }
    let flags: usize = u16_at(h, 8);
    let method: usize = u16_at(h, 10);
    let comp_size: usize = u32_at(h, 20);
    let name_len: usize = u16_at(h, 28);
    let extra_len: usize = u16_at(h, 30);
    let comment_len: usize = u16_at(h, 32);
    let local_off: usize = u32_at(h, 42);
    if comp_size == 0xFFFF_FFFF || local_off == 0xFFFF_FFFF {
        return Err(unsupported("zip64 archives"));
    }
    let raw = match slice(b, off + 46, name_len, "entry name") {
        Ok(n) => n,
        Err(e) => {
            return Err(e);
        },
    };
    let name: String = match text::utf8_text(raw) {
        Some(n) => n.to_owned(),
        None => {
            return Err(malformed("entry name is not UTF-8"));
        },
    };
    let at: usize = off + 46 + name_len;
    let next: usize = at.saturating_add(extra_len + comment_len);
    Ok((Entry { name, method, flags, comp_size, local_off }, next))
}

/// Past the end of the address space there is no header.
proof fn lemma_entry_far(b: Seq<u8>, x: int, y: int)
    requires
        x > usize::MAX - 46,
        y > usize::MAX - 46,
    ensures
        entry_at(b, x) == entry_at(b, y),
{
    reveal(entry_at);
}

fn read_directory(b: &[u8]) -> (r: Result<Vec<Entry>, IoError>)
    ensures
        match r {
            Ok(v) => directory(b@) == Ok::<Seq<EntryView>, IoErrorView>(entry_views(v@)),
            Err(e) => directory(b@) == Err::<Seq<EntryView>, IoErrorView>(e@),
        },
{
    if b.len() < 22 {
        return Err(malformed("file smaller than ZIP EOCD"));
    }
    let eocd: usize = match find_end_record(b) {
        Some(i) => i,
        None => {
            return Err(malformed("no ZIP end-of-central-directory"));
        },
    };
    let count: usize = u16_at(b, eocd + 10);
    let size: usize = u32_at(b, eocd + 12);
    let start: usize = u32_at(b, eocd + 16);
    if count == 0xFFFF || size == 0xFFFF_FFFF || start == 0xFFFF_FFFF {
        return Err(unsupported("zip64 archives"));
    }
    match slice(b, start, size, "central directory") {
        Ok(_) => {},
        Err(e) => {
            return Err(e);
        },
    }
    let mut out: Vec<Entry> = Vec::new();
    let mut off: usize = start;
    let mut i: usize = 0;
    // The exact position, of which `off` is the part that fits a word.
    let ghost mut at: int = start as int;
    assert(entry_views(out@) =~= seq![]);
    proof {
        if let Ok(s) = entries_at(b@, at, count as nat) {
            assert(entry_views(out@) + s =~= s);
        }
    }
    while i < count
        invariant
            i <= count,
            off == (if at <= usize::MAX {
                at
            } else {
                usize::MAX as int
            }),
            directory(b@) == entries_at(b@, start as int, count as nat),
            match entries_at(b@, at, (count - i) as nat) {
                Ok(s) => directory(b@) == Ok::<Seq<EntryView>, IoErrorView>(
                    entry_views(out@) + s,
                ),
                Err(e) => directory(b@) == Err::<Seq<EntryView>, IoErrorView>(e),
            },
        decreases count - i,
    {
        proof {
            if at > usize::MAX {
                lemma_entry_far(b@, at, usize::MAX as int);
            }
        }
        match read_entry(b, off) {
            Err(e) => {
                return Err(e);
            },
            Ok((entry, next)) => {
                let ghost before = entry_views(out@);
                out.push(entry);
                proof {
                    let next_at = entry_at(b@, at)->Ok_0.1;
                    assert(entry_views(out@) =~= before + seq![entry@]);
                    if let Ok(s) = entries_at(b@, next_at, (count - i - 1) as nat) {
                        assert(before + (seq![entry@] + s) =~= entry_views(out@) + s);
                    }
                    at = next_at;
                }
                off = next;
                i = i + 1;
            },
        }
    }
    assert(entry_views(out@) + Seq::<EntryView>::empty() =~= entry_views(out@));
    Ok(out)
}

/// The name without a trailing `.npy`.
fn strip_extension(name: &str) -> (r: String)
    ensures
        r@ == array_name(name@),
{
    let chars = text::char_vec(name);
    let n: usize = chars.len();
    proof {
        reveal_strlit(".npy");
    }
    if n >= 4 && chars[n - 4] == '.' && chars[n - 3] == 'n' && chars[n - 2] == 'p' && chars[n - 1]
        == 'y' {
        assert(name@.skip(n - 4) =~= ".npy"@);
        let s = vstd::slice::slice_subrange(chars.as_slice(), 0, n - 4);
        assert(s@ =~= name@.take(n - 4));
        text::string_of(s)
    } else {
        proof {
            if n >= 4 {
                let t = name@.skip(n - 4);
                assert(t[0] == name@[n - 4] && t[1] == name@[n - 3] && t[2] == name@[n - 2] && t[3]
                    == name@[n - 1]);
            }
        }
        name.to_owned()
    }
}

/// Reads the array that an entry refers to.
fn read_member(b: &[u8], e: &Entry) -> (r: Result<NamedArray, IoError>)
    ensures
        match r {
            Ok(a) => member(b@, e@) == Ok::<NamedArrayView, IoErrorView>(a@),
            Err(x) => member(b@, e@) == Err::<NamedArrayView, IoErrorView>(x@),
        },
{
    proof {
        reveal(member);
    }
    if e.flags % 2 == 1 {
        let mut m = "encrypted entry ".to_owned();
        let q = text::debug_text(e.name.as_str());
        m.append(q.as_str());
        return Err(IoError::Unsupported(m));
    }
    if (e.flags / 8) % 2 == 1 {
        let mut m = "entry ".to_owned();
        let q = text::debug_text(e.name.as_str());
        m.append(q.as_str());
        m.append(" uses a data descriptor (not written by numpy)");
        return Err(IoError::Unsupported(m));
    }
    if e.method != 0 {
        let mut m = "entry ".to_owned();
        let q = text::debug_text(e.name.as_str());
        m.append(q.as_str());
        m.append(" uses compression method ");
        text::push_decimal(&mut m, e.method as u64);
        m.append(" (np.savez_compressed output); resave with np.savez (uncompressed)");
        return Err(IoError::Unsupported(m));
    }
    let h = match slice(b, e.local_off, 30, "local header") {
        Ok(h) => h,
        Err(x) => {
            return Err(x);
        },
    };
    assert(h@.subrange(0, 4) =~= h@.take(4));
    if !has_signature(h, 0, 3, 4) {
        let mut m = "bad local header for ".to_owned();
        let q = text::debug_text(e.name.as_str());
        m.append(q.as_str());
        return Err(IoError::Malformed(m));
    }
    let name_len: usize = u16_at(h, 26);
    let extra_len: usize = u16_at(h, 28);
    let head: usize = e.local_off + 30;
    let off: usize = match head.checked_add(name_len + extra_len) {
        Some(o) => o,
        None => {
            let mut m = "entry data".to_owned();
            m.append(" out of bounds");
            return Err(IoError::Malformed(m));
        },
    };
    let raw = match slice(b, off, e.comp_size, "entry data") {
        Ok(p) => p,
        Err(x) => {
            return Err(x);
        },
    };
    match read_npy_bytes(raw) {
        Ok(a) => {
            let RawArray { shape, data } = a;
            Ok(NamedArray { name: strip_extension(e.name.as_str()), shape, data })
        },
        Err(IoError::Malformed(m)) => {
            let mut s = text::debug_text(e.name.as_str());
            s.append(": ");
            s.append(m.as_str());
            Err(IoError::Malformed(s))
        },
        Err(x) => Err(x),
    }
}


/// Reads all arrays from an `.npz` buffer, in archive order.
pub fn read_npz(b: &[u8]) -> (r: Result<Vec<NamedArray>, IoError>)
    ensures
        match r {
            Ok(v) => npz_arrays(b@) == Ok::<Seq<NamedArrayView>, IoErrorView>(views(v@)),
            Err(e) => npz_arrays(b@) == Err::<Seq<NamedArrayView>, IoErrorView>(e@),
        },
{
    let entries: Vec<Entry> = match read_directory(b) {
        Ok(v) => v,
        Err(e) => {
            return Err(e);
        },
    };
    let ghost all = entry_views(entries@);
    let mut out: Vec<NamedArray> = Vec::new();
    let mut i: usize = 0;
    proof {
        assert(all.skip(0) =~= all);
        assert(views(out@) =~= seq![]);
        if let Ok(s) = members(b@, all) {
            assert(views(out@) + s =~= s);
        }
    }
    while i < entries.len()
        invariant
            i <= entries@.len(),
            all == entry_views(entries@),
            npz_arrays(b@) == members(b@, all),
            match members(b@, all.skip(i as int)) {
                Ok(s) => npz_arrays(b@) == Ok::<Seq<NamedArrayView>, IoErrorView>(views(out@) + s),
                Err(e) => npz_arrays(b@) == Err::<Seq<NamedArrayView>, IoErrorView>(e),
            },
        decreases entries@.len() - i,
    {
        let e = &entries[i];
        assert(all.skip(i as int)[0] == e@);
        assert(all.skip(i as int).skip(1) =~= all.skip(i + 1));
        let name = text::char_vec(e.name.as_str());
        if name.len() > 0 && name[name.len() - 1] == '/' {
            i = i + 1;
            continue ;
        }
        match read_member(b, e) {
            Err(x) => {
                return Err(x);
            },
            Ok(a) => {
                let ghost before = views(out@);
                let ghost av = a@;
                out.push(a);
                proof {
                    assert(views(out@) =~= before + seq![av]);
                    if let Ok(s) = members(b@, all.skip(i + 1)) {
                        assert(before + (seq![av] + s) =~= views(out@) + s);
                    }
                }
            },
        }
        i = i + 1;
    }
    assert(all.skip(i as int).len() == 0);
    assert(views(out@) + Seq::<NamedArrayView>::empty() =~= views(out@));
    Ok(out)
}

/// Reads a single `.npy` buffer (the name is empty).
pub fn read_npy(b: &[u8]) -> (r: Result<NamedArray, IoError>)
    ensures
        match r {
            Ok(a) => npy::npy_array(b@) == Ok::<RawArrayView, IoErrorView>(
                RawArrayView { shape: a.shape@, data: a.data@ },
            ) && a.name@ == Seq::<char>::empty(),
            Err(e) => npy::npy_array(b@) == Err::<RawArrayView, IoErrorView>(e@),
        },
{
    match read_npy_bytes(b) {
        Ok(a) => {
            let RawArray { shape, data } = a;
            let name = String::new();
            assert(name@ =~= Seq::<char>::empty());
            Ok(NamedArray { name, shape, data })
        },
        Err(e) => Err(e),
    }
}

/// The file name of an array in an archive.
pub open spec fn member_name(name: Seq<char>) -> Seq<char> {
    name + ".npy"@
}

/// Two zero bytes.
pub open spec fn zero16() -> Seq<u8> {
    bytes::le_bytes(0, 2)
}

/// What local header and directory entry share: flags, method, time and date
/// of zero, checksum, the two equal sizes, the lengths of name and extra field.
#[verifier::opaque]
pub open spec fn common_fields(a: NamedArrayView) -> Seq<u8> {
    let payload = npy::npy_bytes(a.shape, a.data);
    let name = vstd::utf8::encode_utf8(member_name(a.name));
    bytes::le_bytes(20, 2) + zero16() + zero16() + zero16() + zero16() + bytes::le_bytes(
        crc_of(payload) as nat,
        4,
    ) + bytes::le_bytes(payload.len(), 4) + bytes::le_bytes(payload.len(), 4) + bytes::le_bytes(
        name.len(),
        2,
    ) + zero16()
}

/// A stored member with its local header.
#[verifier::opaque]
pub open spec fn local_record(a: NamedArrayView) -> Seq<u8> {
    signature(3, 4) + common_fields(a) + vstd::utf8::encode_utf8(member_name(a.name))
        + npy::npy_bytes(a.shape, a.data)
}

/// The directory entry of a member whose local header stands at `off`.
#[verifier::opaque]
pub open spec fn central_record(a: NamedArrayView, off: nat) -> Seq<u8> {
    signature(1, 2) + bytes::le_bytes(20, 2) + common_fields(a) + zero16() + zero16() + zero16()
        + bytes::le_bytes(0, 4) + bytes::le_bytes(off, 4) + vstd::utf8::encode_utf8(
        member_name(a.name),
    )
}

pub open spec fn local_records(arrays: Seq<NamedArrayView>) -> Seq<u8>
    decreases arrays.len(),
{
    if arrays.len() == 0 {
        seq![]
    } else {
        local_records(arrays.drop_last()) + local_record(arrays.last())
    }
}

pub open spec fn central_records(arrays: Seq<NamedArrayView>) -> Seq<u8>
    decreases arrays.len(),
{
    if arrays.len() == 0 {
        seq![]
    } else {
        central_records(arrays.drop_last()) + central_record(
            arrays.last(),
            local_records(arrays.drop_last()).len(),
        )
    }
}

/// The end-of-central-directory record, without a comment.
pub open spec fn final_record(count: nat, size: nat, off: nat) -> Seq<u8> {
    signature(5, 6) + zero16() + zero16() + bytes::le_bytes(count, 2) + bytes::le_bytes(count, 2)
        + bytes::le_bytes(size, 4) + bytes::le_bytes(off, 4) + zero16()
}

/// An archive of stored members. Lengths and positions are written modulo the
/// size of their fields.
pub open spec fn npz_bytes(arrays: Seq<NamedArrayView>) -> Seq<u8> {
    local_records(arrays) + central_records(arrays) + final_record(
        arrays.len(),
        central_records(arrays).len(),
        local_records(arrays).len(),
    )
}

/// The models of the arrays to be written.
pub open spec fn sources(arrays: Seq<(&str, &[usize], &[u32])>) -> Seq<NamedArrayView> {
    Seq::new(
        arrays.len(),
        |i: int|
            NamedArrayView { name: arrays[i].0@, shape: arrays[i].1@, data: arrays[i].2@ },
    )
}

fn push_signature(out: &mut Vec<u8>, x: u8, y: u8)
    ensures
        final(out)@ == old(out)@ + signature(x, y),
{
    let ghost start = out@;
    out.push(0x50);
    out.push(0x4B);
    out.push(x);
    out.push(y);
    assert(out@ =~= start + signature(x, y));
}

fn push_common(
    out: &mut Vec<u8>,
    crc: u32,
    payload_len: usize,
    name_len: usize,
    Ghost(a): Ghost<NamedArrayView>,
)
    requires
        crc == crc_of(npy::npy_bytes(a.shape, a.data)),
        payload_len == npy::npy_bytes(a.shape, a.data).len(),
        name_len == vstd::utf8::encode_utf8(member_name(a.name)).len(),
    ensures
        final(out)@ == old(out)@ + common_fields(a),
{
    let ghost start = out@;
    bytes::push_le(out, 20, 2);
    bytes::push_le(out, 0, 2);
    bytes::push_le(out, 0, 2);
    bytes::push_le(out, 0, 2);
    bytes::push_le(out, 0, 2);
    bytes::push_le(out, crc as u64, 4);
    bytes::push_le(out, payload_len as u64, 4);
    bytes::push_le(out, payload_len as u64, 4);
    bytes::push_le(out, name_len as u64, 2);
    bytes::push_le(out, 0, 2);
    proof {
        reveal(common_fields);
    }
    assert(out@ =~= start + common_fields(a));
}

/// Writes `[(name, shape, data)]` as an `.npz` buffer (stored, like
/// `np.savez`). Data is always binary32 (`<f4`).
pub fn write_npz(arrays: &[(&str, &[usize], &[u32])]) -> (r: Vec<u8>)
    ensures
        r@ == npz_bytes(sources(arrays@)),
{
    let ghost all = sources(arrays@);
    let mut out: Vec<u8> = Vec::new();
    let mut central: Vec<u8> = Vec::new();
    let mut i: usize = 0;
    assert(all.take(0) =~= seq![]);
    assert(out@ =~= seq![]);
    assert(central@ =~= seq![]);
    while i < arrays.len()
        invariant
            i <= arrays@.len(),
            all == sources(arrays@),
            out@ == local_records(all.take(i as int)),
            central@ == central_records(all.take(i as int)),
        decreases arrays@.len() - i,
    {
        let (name, shape, data) = arrays[i];
        let ghost a = all[i as int];
        let mut file = name.to_owned();
        file.append(".npy");
        assert(file@ =~= member_name(a.name));
        let raw_name = file.as_str().as_bytes();
        let payload = write_npy_bytes(shape, data);
        let crc: u32 = crc32(payload.as_slice());
        let local_off: usize = out.len();

        push_signature(&mut out, 3, 4);
        push_common(&mut out, crc, payload.len(), raw_name.len(), Ghost(a));
        out.extend_from_slice(raw_name);
        out.extend_from_slice(payload.as_slice());

        let ghost before = central@;
        push_signature(&mut central, 1, 2);
        bytes::push_le(&mut central, 20, 2);
        push_common(&mut central, crc, payload.len(), raw_name.len(), Ghost(a));
        bytes::push_le(&mut central, 0, 2);
        bytes::push_le(&mut central, 0, 2);
        bytes::push_le(&mut central, 0, 2);
        bytes::push_le(&mut central, 0, 4);
        bytes::push_le(&mut central, local_off as u64, 4);
        central.extend_from_slice(raw_name);
        proof {
            let t = all.take(i + 1);
            assert(t.drop_last() =~= all.take(i as int));
            assert(t.last() == a);
            reveal(local_record);
            reveal(central_record);
            assert(out@ =~= local_records(t));
            assert(central@ =~= before + central_record(a, local_off as nat));
        }
        i = i + 1;
    }
    assert(all.take(all.len() as int) =~= all);
    let cd_off: usize = out.len();
    out.extend_from_slice(central.as_slice());
    let ghost body = out@;
    push_signature(&mut out, 5, 6);
    bytes::push_le(&mut out, 0, 2);
    bytes::push_le(&mut out, 0, 2);
    bytes::push_le(&mut out, arrays.len() as u64, 2);
    bytes::push_le(&mut out, arrays.len() as u64, 2);
    bytes::push_le(&mut out, central.len() as u64, 4);
    bytes::push_le(&mut out, cd_off as u64, 4);
    bytes::push_le(&mut out, 0, 2);
    assert(out@ =~= body + final_record(all.len(), central@.len(), cd_off as nat));
    out
}

} // verus!
