//! Which bytes of a file an array's elements come from, and what they spell.
use crate::bytes;
use crate::ieee;
use crate::io::error::IoErrorView;
use crate::io::npy;
use crate::io::npy::{Converter, Kind};
use crate::io::safetensors;
use crate::io::safetensors::{Storage, TensorMetaView};
use crate::single;
use crate::widths;
use vstd::arithmetic::power2::pow2;
use vstd::prelude::*;

verus! {

/// The number that `n` bytes from `at` on spell, least significant first.
pub open spec fn little(b: Seq<u8>, at: int, n: nat) -> nat
    decreases n,
{
    if n == 0 {
        0
    } else {
        b[at] as nat + 256 * little(b, at + 1, (n - 1) as nat)
    }
}

/// The number that `n` bytes from `at` on spell, most significant first.
pub open spec fn big(b: Seq<u8>, at: int, n: nat) -> nat
    decreases n,
{
    if n == 0 {
        0
    } else {
        256 * big(b, at, (n - 1) as nat) + b[at + n - 1] as nat
    }
}

/// The binary32 number that an element of `size` bytes stands for, where its
/// bytes spell `v`.
pub open spec fn number(kind: Kind, size: int, v: nat) -> u32 {
    match kind {
        Kind::Float => if size == 4 {
            v as u32
        } else if size == 2 {
            widths::of_binary16(v as u16)
        } else {
            widths::of_binary64(v as u64)
        },
        Kind::Signed => if 2 * v >= pow2((8 * size) as nat) {
            single::of_integer(v - pow2((8 * size) as nat))
        } else {
            single::of_integer(v as int)
        },
        Kind::Unsigned => single::of_integer(v as int),
        Kind::Bool => if v == 0 {
            0
        } else {
            single::ONE
        },
    }
}

proof fn lemma_little(b: Seq<u8>, at: int, n: nat)
    requires
        0 <= at,
        at + n <= b.len(),
    ensures
        bytes::le_value(b.subrange(at, at + n)) == little(b, at, n),
    decreases n,
{
    let s = b.subrange(at, at + n);
    if n > 0 {
        assert(s.skip(1) =~= b.subrange(at + 1, at + n));
        lemma_little(b, at + 1, (n - 1) as nat);
    }
}

proof fn lemma_big(b: Seq<u8>, at: int, n: nat)
    requires
        0 <= at,
        at + n <= b.len(),
    ensures
        bytes::be_value(b.subrange(at, at + n)) == big(b, at, n),
    decreases n,
{
    let s = b.subrange(at, at + n);
    if n > 0 {
        assert(s.drop_last() =~= b.subrange(at, at + n - 1));
        lemma_big(b, at, (n - 1) as nat);
    }
}

/// Element `i` is what bytes `i * size` to `(i + 1) * size` spell.
pub proof fn lemma_element(c: Converter, b: Seq<u8>, count: nat, i: int)
    requires
        c.wf(),
        b.len() == count * c.size,
        0 <= i < count,
    ensures
        c.values(b, count).len() == count,
        c.values(b, count)[i] == number(
            c.kind,
            c.size as int,
            if c.little {
                little(b, i * c.size, c.size as nat)
            } else {
                big(b, i * c.size, c.size as nat)
            },
        ),
{
    let n = c.size as nat;
    let at = i * c.size;
    assert(0 <= at && at + n <= count * c.size) by (nonlinear_arith)
        requires
            at == i * c.size,
            n == c.size,
            0 <= i,
            i + 1 <= count,
            c.size >= 0,
    ;
    lemma_little(b, at, n);
    lemma_big(b, at, n);
    vstd::arithmetic::power2::lemma_pow2_unfold(8 * n);
}

/// What a `descr` says: the first character the byte order, the second the
/// kind, the third the size. Every pair of a known kind and size is known in
/// both byte orders; only single bytes go without one.
pub proof fn lemma_dtype(descr: Seq<char>)
    ensures
        npy::dtype_of(descr) matches Some(c) ==> {
            &&& c.wf()
            &&& descr.len() == 3
            &&& c.little == (descr[0] != '>')
            &&& descr[0] == '<' || descr[0] == '>' || (descr[0] == '|' && c.size == 1)
            &&& descr[1] == (match c.kind {
                Kind::Float => 'f',
                Kind::Signed => 'i',
                Kind::Unsigned => 'u',
                Kind::Bool => 'b',
            })
            &&& c.size == descr[2] as int - '0' as int
        },
        descr.len() == 3 && (descr[0] == '<' || descr[0] == '>') && descr[1] == 'f' && (descr[2]
            == '2' || descr[2] == '4' || descr[2] == '8') ==> npy::dtype_of(descr) is Some,
        descr.len() == 3 && (descr[0] == '<' || descr[0] == '>') && (descr[1] == 'i' || descr[1]
            == 'u') && (descr[2] == '1' || descr[2] == '2' || descr[2] == '4' || descr[2] == '8')
            ==> npy::dtype_of(descr) is Some,
        descr == seq!['|', 'u', '1'] || descr == seq!['|', 'b', '1'] ==> npy::dtype_of(
            descr,
        ) is Some,
{
}

/// The element of a `.npy` array at a multi-index is read from the place behind
/// the header that the storage order gives it: row by row, or column by column
/// where the header says so.
pub proof fn lemma_npy_element(
    b: Seq<u8>,
    start: int,
    end: int,
    descr: Seq<char>,
    fortran: bool,
    shape: Seq<usize>,
    idx: Seq<nat>,
)
    requires
        npy::npy_array(b) is Ok,
        npy::header_span(b) == Ok::<(int, int), IoErrorView>((start, end)),
        npy::header_fields(vstd::utf8::decode_utf8(b.subrange(start, end))) == Some(
            (descr, fortran, shape),
        ),
        npy::in_shape(idx, shape),
    ensures
        ({
            let a = npy::npy_array(b)->Ok_0;
            let c = npy::dtype_of(descr)->0;
            let p = npy::c_position(idx, shape) as int;
            let at = end + c.size * (if fortran {
                npy::f_position(idx, shape) as int
            } else {
                p
            });
            &&& npy::dtype_of(descr) is Some
            &&& a.shape == shape
            &&& p < a.data.len()
            &&& a.data[p] == number(
                c.kind,
                c.size as int,
                if c.little {
                    little(b, at, c.size as nat)
                } else {
                    big(b, at, c.size as nat)
                },
            )
        }),
{
    lemma_dtype(descr);
    let c = npy::dtype_of(descr)->0;
    let data = b.skip(end);
    let n = npy::checked_product(shape)->0;
    npy::lemma_checked_product(shape);
    let flat = c.values(data, n);
    npy::lemma_c_order_keeps_elements(flat, shape, idx);
    npy::lemma_positions(shape, idx);
    npy::lemma_fortran_offset_bound(npy::c_position(idx, shape), shape);
    let k = (if fortran {
        npy::f_position(idx, shape)
    } else {
        npy::c_position(idx, shape)
    }) as int;
    lemma_element(c, data, n, k);
    lemma_moved(c, b, end, n, k);
    assert(end + c.size * k == end + k * c.size) by (nonlinear_arith);
}

/// The bytes of an element behind a header of `end` bytes.
proof fn lemma_moved(c: Converter, b: Seq<u8>, end: int, count: nat, k: int)
    requires
        c.wf(),
        0 <= end <= b.len(),
        b.len() - end == count * c.size,
        0 <= k < count,
    ensures
        little(b.skip(end), k * c.size, c.size as nat) == little(
            b,
            end + k * c.size,
            c.size as nat,
        ),
        big(b.skip(end), k * c.size, c.size as nat) == big(b, end + k * c.size, c.size as nat),
{
    let n = c.size as nat;
    let at = k * c.size;
    assert(0 <= at && at + n <= count * c.size) by (nonlinear_arith)
        requires
            at == k * c.size,
            n == c.size,
            0 <= k,
            k + 1 <= count,
            c.size >= 0,
    ;
    lemma_little(b.skip(end), at, n);
    lemma_little(b, end + at, n);
    lemma_big(b.skip(end), at, n);
    lemma_big(b, end + at, n);
    assert(b.skip(end).subrange(at, at + n) =~= b.subrange(end + at, end + at + n));
}

/// The number that an element of a tensor stands for, where its bytes spell
/// `v`; the upper half of a number is what `BF16` keeps of it.
pub open spec fn tensor_number(dtype: Seq<char>, v: nat) -> u32 {
    if dtype == "F32"@ {
        v as u32
    } else if dtype == "F16"@ {
        widths::of_binary16(v as u16)
    } else if dtype == "BF16"@ {
        (v * 0x1_0000) as u32
    } else if dtype == "I32"@ {
        number(Kind::Signed, 4, v)
    } else if dtype == "I64"@ {
        number(Kind::Signed, 8, v)
    } else if dtype == "U8"@ {
        number(Kind::Unsigned, 1, v)
    } else {
        number(Kind::Bool, 1, v)
    }
}

/// Bytes per element of a tensor.
pub open spec fn tensor_size(dtype: Seq<char>) -> int {
    if dtype == "F32"@ || dtype == "I32"@ {
        4
    } else if dtype == "F16"@ || dtype == "BF16"@ {
        2
    } else if dtype == "I64"@ {
        8
    } else {
        1
    }
}

/// Whether a dtype is one of the seven that can be read.
pub open spec fn is_known(dtype: Seq<char>) -> bool {
    ||| dtype == "F32"@
    ||| dtype == "F16"@
    ||| dtype == "BF16"@
    ||| dtype == "I32"@
    ||| dtype == "I64"@
    ||| dtype == "U8"@
    ||| dtype == "BOOL"@
}

/// Whether a header entry fits the data behind the header.
pub open spec fn entry_fits(data: Seq<u8>, m: TensorMetaView) -> bool {
    let size = npy::product(m.shape) * tensor_size(m.dtype);
    &&& is_known(m.dtype)
    &&& m.start <= m.end <= data.len()
    &&& m.end - m.start == size
    &&& size <= usize::MAX
}

proof fn lemma_names()
    ensures
        "F32"@ != "F16"@,
        "F32"@ != "BF16"@,
        "F32"@ != "I32"@,
        "F32"@ != "I64"@,
        "F16"@ != "BF16"@,
        "F16"@ != "I32"@,
        "F16"@ != "I64"@,
        "BF16"@ != "I32"@,
        "BF16"@ != "I64"@,
        "I32"@ != "I64"@,
        "U8"@.len() == 2,
        "BOOL"@ != "BF16"@,
        "F32"@.len() == 3 && "F16"@.len() == 3 && "I32"@.len() == 3 && "I64"@.len() == 3,
        "BF16"@.len() == 4 && "BOOL"@.len() == 4,
{
    reveal_strlit("F32");
    reveal_strlit("F16");
    reveal_strlit("BF16");
    reveal_strlit("I32");
    reveal_strlit("I64");
    reveal_strlit("U8");
    reveal_strlit("BOOL");
    assert("F32"@[1] == '3' && "F16"@[1] == '1');
    assert("F32"@[0] == 'F' && "I32"@[0] == 'I' && "I64"@[0] == 'I' && "F16"@[0] == 'F');
    assert("I32"@[1] == '3' && "I64"@[1] == '6');
    assert("BF16"@[1] == 'F' && "BOOL"@[1] == 'O');
}

/// A header entry is read exactly where it fits the data, and element `k` of
/// its tensor is what the bytes from `start + k * size` on spell.
pub proof fn lemma_tensor(data: Seq<u8>, name: Seq<char>, m: TensorMetaView, k: int)
    ensures
        safetensors::tensor(data, name, m) is Ok <==> entry_fits(data, m),
        safetensors::tensor(data, name, m) matches Ok(a) ==> {
            &&& a.name == name
            &&& a.shape == m.shape
            &&& a.data.len() == npy::product(m.shape)
            &&& 0 <= k < a.data.len() ==> a.data[k] == tensor_number(
                m.dtype,
                little(
                    data,
                    m.start + k * tensor_size(m.dtype),
                    tensor_size(m.dtype) as nat,
                ),
            )
        },
{
    lemma_names();
    if let Some(s) = safetensors::storage_of(m.dtype) {
        assert(s.size() == tensor_size(m.dtype));
        let n = npy::product(m.shape);
        if m.start <= m.end <= data.len() && m.end - m.start == n * s.size() && 0 <= k < n {
            let part = data.subrange(m.start as int, m.end as int);
            let z = s.size();
            let at = k * z;
            assert(0 <= at && at + z <= n * z) by (nonlinear_arith)
                requires
                    at == k * z,
                    0 <= k,
                    k + 1 <= n,
                    z >= 0,
            ;
            lemma_little(part, at, z);
            lemma_little(data, m.start + at, z);
            assert(part.subrange(at, at + z) =~= data.subrange(m.start + at, m.start + at + z));
            match s {
                Storage::Numeric(c) => {
                    lemma_element(c, part, n, k);
                },
                Storage::BFloat16 => {
                    bytes::lemma_le_value_bound(part.subrange(at, at + z));
                    vstd::arithmetic::power2::lemma2_to64();
                },
            }
        }
    }
}

/// The tensors of a file are those of its header entries, in the same order,
/// and they are read exactly where every entry fits.
pub proof fn lemma_tensors(data: Seq<u8>, entries: Seq<(Seq<char>, TensorMetaView)>, i: int, k: int)
    ensures
        safetensors::tensors(data, entries) is Ok <==> forall|j: int|
            0 <= j < entries.len() ==> entry_fits(data, (#[trigger] entries[j]).1),
        safetensors::tensors(data, entries) matches Ok(all) ==> {
            &&& all.len() == entries.len()
            &&& 0 <= i < entries.len() ==> {
                let (a, m) = (all[i], entries[i].1);
                &&& a.name == entries[i].0
                &&& a.shape == m.shape
                &&& a.data.len() == npy::product(m.shape)
                &&& 0 <= k < a.data.len() ==> a.data[k] == tensor_number(
                    m.dtype,
                    little(
                        data,
                        m.start + k * tensor_size(m.dtype),
                        tensor_size(m.dtype) as nat,
                    ),
                )
            }
        },
    decreases entries.len(),
{
    if entries.len() > 0 {
        let rest = entries.skip(1);
        lemma_tensor(data, entries[0].0, entries[0].1, k);
        lemma_tensors(data, rest, i - 1, k);
        assert forall|j: int| 0 <= j < rest.len() implies #[trigger] rest[j] == entries[j + 1] by {}
        if safetensors::tensors(data, rest) is Ok && entry_fits(data, entries[0].1) {
            assert forall|j: int| 0 <= j < entries.len() implies entry_fits(
                data,
                (#[trigger] entries[j]).1,
            ) by {
                if j > 0 {
                    assert(rest[j - 1] == entries[j]);
                }
            }
        }
        if forall|j: int| 0 <= j < entries.len() ==> entry_fits(data, (#[trigger] entries[j]).1) {
            assert forall|j: int| 0 <= j < rest.len() implies entry_fits(
                data,
                (#[trigger] rest[j]).1,
            ) by {
                assert(entry_fits(data, entries[j + 1].1));
            }
            assert(entry_fits(data, entries[0].1));
        }
    }
}

/// A file is eight bytes that spell the length of the header, the header, and
/// the data that its offsets count from.
pub proof fn lemma_file(b: Seq<u8>, entries: Seq<(Seq<char>, TensorMetaView)>)
    requires
        b.len() >= 8,
        8 + little(b, 0, 8) <= b.len(),
        vstd::utf8::valid_utf8(b.subrange(8, 8int + little(b, 0, 8))),
        safetensors::header_entries(b.subrange(8, 8int + little(b, 0, 8))) == Ok::<
            Seq<(Seq<char>, TensorMetaView)>,
            Seq<char>,
        >(entries),
    ensures
        safetensors::file_tensors(b) == safetensors::tensors(
            b.subrange(8int + little(b, 0, 8), b.len() as int),
            entries,
        ),
{
    lemma_little(b, 0, 8);
    assert(b.take(8) =~= b.subrange(0, 8));
    let n = 8int + little(b, 0, 8);
    assert(b.skip(n) =~= b.subrange(n, b.len() as int));
}

/// A binary64 number becomes the nearest binary32 number: the sign is kept, and
/// the magnitude, where it is not too large, is off by at most half of the
/// smallest unit or one part in `2^24`; infinities stay infinite, and NaNs stay
/// NaNs.
pub proof fn lemma_binary64(bits: u64)
    ensures
        ({
            let r = widths::of_binary64(bits);
            let m = bits % 0x8000_0000_0000_0000;
            let exact = ieee::units(m as nat, 0x10_0000_0000_0000);
            &&& m > 0x7FF0_0000_0000_0000 ==> single::is_nan(r)
            &&& m <= 0x7FF0_0000_0000_0000 ==> single::is_negative(r) == (bits
                >= 0x8000_0000_0000_0000)
            &&& m == 0x7FF0_0000_0000_0000 ==> single::is_infinite(r)
            &&& m < 0x7FF0_0000_0000_0000 && exact <= pow2(925) * single::largest_finite() ==> {
                let e = ieee::apart((single::magnitude(r) * pow2(925)) as int, exact as int);
                &&& single::is_finite(r)
                &&& 2 * e <= pow2(925) || 0x100_0000 * e <= exact
            }
        }),
{
    let m = bits % 0x8000_0000_0000_0000;
    let exact = widths::magnitude64(bits);
    let negative = bits >= 0x8000_0000_0000_0000;
    vstd::arithmetic::power2::lemma_pow2_pos(925);
    if m < 0x7FF0_0000_0000_0000 {
        single::lemma_with_sign(
            negative,
            single::clamped(ieee::encode(exact, pow2(925), single::HALF as nat)),
        );
        if exact <= pow2(925) * single::largest_finite() {
            single::lemma_rounded(negative, exact, pow2(925));
        }
    } else {
        single::lemma_with_sign(negative, single::INFINITY as nat);
    }
}

} // verus!
