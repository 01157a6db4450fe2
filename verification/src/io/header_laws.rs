//! A `.safetensors` header, written down plainly, is read back.
use crate::io::npy_laws;
use crate::io::safetensors;
use crate::io::safetensors::{Fields, TensorMetaView};
use crate::scan;
use crate::text;
use vstd::prelude::*;

verus! {

/// Whether `w` stands in `b` at `pos`.
pub open spec fn stands(b: Seq<u8>, pos: int, w: Seq<u8>) -> bool {
    &&& 0 <= pos
    &&& pos + w.len() <= b.len()
    &&& forall|i: int| 0 <= i < w.len() ==> b[pos + i] == #[trigger] w[i]
}

pub proof fn lemma_stands_both(b: Seq<u8>, pos: int, x: Seq<u8>, y: Seq<u8>)
    requires
        stands(b, pos, x + y),
    ensures
        stands(b, pos, x),
        stands(b, pos + x.len(), y),
{
    let w = x + y;
    assert forall|i: int| 0 <= i < x.len() implies b[pos + i] == #[trigger] x[i] by {
        assert(w[i] == x[i]);
    }
    assert forall|i: int| 0 <= i < y.len() implies b[pos + x.len() + i] == #[trigger] y[i] by {
        assert(w[x.len() + i] == y[i]);
    }
}

pub proof fn lemma_stands_one(b: Seq<u8>, pos: int, c: u8)
    requires
        stands(b, pos, seq![c]),
    ensures
        scan::holds(b, pos, c),
        !scan::is_blank(c) ==> scan::after_blanks(b, pos) == pos,
{
    assert(seq![c][0] == c);
}

/// Bytes in double quotes.
pub open spec fn quoted(s: Seq<u8>) -> Seq<u8> {
    seq![0x22u8] + (s + seq![0x22u8])
}

/// Whether bytes can stand between double quotes as they are.
pub open spec fn is_plain(s: Seq<u8>) -> bool {
    forall|i: int| 0 <= i < s.len() ==> #[trigger] s[i] != 0x22 && s[i] != 0x5C
}

/// The characters with the numbers of the bytes.
pub open spec fn latin(s: Seq<u8>) -> Seq<char> {
    Seq::new(s.len(), |i: int| s[i] as char)
}

/// A number in decimal digits.
pub open spec fn numeral(n: nat) -> Seq<u8> {
    Seq::new(text::decimal(n).len(), |i: int| text::decimal(n)[i] as u8)
}

/// Numbers with commas between them, and a closing bracket.
pub open spec fn list_text(s: Seq<usize>) -> Seq<u8>
    decreases s.len(),
{
    if s.len() == 0 {
        seq![0x5Du8]
    } else if s.len() == 1 {
        numeral(s[0] as nat) + seq![0x5Du8]
    } else {
        numeral(s[0] as nat) + (seq![0x2Cu8] + list_text(s.skip(1)))
    }
}

/// A key in double quotes and a colon.
pub open spec fn key_text(k: Seq<u8>) -> Seq<u8> {
    quoted(k) + seq![0x3Au8]
}

/// `dtype`.
pub open spec fn dtype_key() -> Seq<u8> {
    seq![0x64u8, 0x74, 0x79, 0x70, 0x65]
}

/// `shape`.
pub open spec fn shape_key() -> Seq<u8> {
    seq![0x73u8, 0x68, 0x61, 0x70, 0x65]
}

/// `data_offsets`.
pub open spec fn offsets_key() -> Seq<u8> {
    seq![0x64u8, 0x61, 0x74, 0x61, 0x5F, 0x6F, 0x66, 0x66, 0x73, 0x65, 0x74, 0x73]
}

/// A tensor that a header is to describe.
pub struct TensorLine {
    pub name: Seq<u8>,
    pub dtype: Seq<u8>,
    pub shape: Seq<usize>,
    pub start: usize,
    pub end: usize,
}

impl TensorLine {
    /// The three fields and a closing brace.
    pub open spec fn fields(self) -> Seq<u8> {
        key_text(dtype_key()) + (quoted(self.dtype) + (seq![0x2Cu8] + (key_text(shape_key()) + (
        seq![0x5Bu8] + (list_text(self.shape) + (seq![0x2Cu8] + (key_text(offsets_key()) + (
        seq![0x5Bu8] + (list_text(seq![self.start, self.end]) + seq![0x7Du8])))))))))
    }

    /// `"name":{"dtype":"..","shape":[..],"data_offsets":[..,..]}`.
    pub open spec fn written(self) -> Seq<u8> {
        key_text(self.name) + (seq![0x7Bu8] + self.fields())
    }

    /// Whether the name and the dtype can be written as they are, and the name
    /// is none that a header keeps for other use.
    pub open spec fn is_writable(self) -> bool {
        &&& is_plain(self.name)
        &&& is_plain(self.dtype)
        &&& latin(self.name) != "__metadata__"@
    }

    /// What reading is to give.
    pub open spec fn meant(self) -> (Seq<char>, TensorMetaView) {
        (
            latin(self.name),
            TensorMetaView {
                dtype: latin(self.dtype),
                shape: self.shape,
                start: self.start,
                end: self.end,
            },
        )
    }
}

/// Tensors with commas between them, and a closing brace.
pub open spec fn lines_text(s: Seq<TensorLine>) -> Seq<u8>
    decreases s.len(),
{
    if s.len() == 0 {
        seq![0x7Du8]
    } else if s.len() == 1 {
        s[0].written() + seq![0x7Du8]
    } else {
        s[0].written() + (seq![0x2Cu8] + lines_text(s.skip(1)))
    }
}

/// A header.
pub open spec fn header_text(s: Seq<TensorLine>) -> Seq<u8> {
    seq![0x7Bu8] + lines_text(s)
}

proof fn lemma_string_rest(b: Seq<u8>, pos: int, s: Seq<u8>)
    requires
        is_plain(s),
        stands(b, pos, s + seq![0x22u8]),
    ensures
        safetensors::string_rest(b, pos) == Ok::<(Seq<char>, int), Seq<char>>(
            (latin(s), pos + s.len() + 1),
        ),
    decreases s.len(),
{
    let w = s + seq![0x22u8];
    if s.len() == 0 {
        assert(w[0] == 0x22);
        assert(b[pos] == w[0]);
        assert(latin(s) =~= seq![]);
    } else {
        assert(w[0] == s[0]);
        assert(b[pos] == w[0]);
        let t = s.skip(1);
        assert forall|i: int| 0 <= i < t.len() implies #[trigger] t[i] != 0x22 && t[i] != 0x5C by {
            assert(s[i + 1] != 0x22);
        }
        assert(stands(b, pos + 1, t + seq![0x22u8])) by {
            let v = t + seq![0x22u8];
            assert forall|i: int| 0 <= i < v.len() implies b[pos + 1 + i] == #[trigger] v[i] by {
                assert(w[i + 1] == v[i]);
            }
        }
        lemma_string_rest(b, pos + 1, t);
        assert(seq![s[0] as char] + latin(t) =~= latin(s));
    }
}

proof fn lemma_string(b: Seq<u8>, pos: int, s: Seq<u8>)
    requires
        is_plain(s),
        stands(b, pos, quoted(s)),
    ensures
        safetensors::string_at(b, pos) == Ok::<(Seq<char>, int), Seq<char>>(
            (latin(s), pos + quoted(s).len()),
        ),
        scan::after_blanks(b, pos) == pos,
        scan::holds(b, pos, 0x22),
{
    lemma_stands_both(b, pos, seq![0x22u8], s + seq![0x22u8]);
    lemma_stands_one(b, pos, 0x22);
    lemma_string_rest(b, pos + 1, s);
}

proof fn lemma_key(b: Seq<u8>, pos: int, k: Seq<u8>)
    requires
        is_plain(k),
        stands(b, pos, key_text(k)),
    ensures
        safetensors::string_at(b, pos) == Ok::<(Seq<char>, int), Seq<char>>(
            (latin(k), pos + quoted(k).len()),
        ),
        safetensors::expected(b, pos + quoted(k).len(), 0x3A) == Ok::<int, Seq<char>>(
            pos + key_text(k).len(),
        ),
        scan::after_blanks(b, pos) == pos,
        scan::holds(b, pos, 0x22),
{
    lemma_stands_both(b, pos, quoted(k), seq![0x3Au8]);
    lemma_string(b, pos, k);
    lemma_stands_one(b, pos + quoted(k).len(), 0x3A);
}

pub proof fn lemma_numeral_value(n: nat)
    ensures
        numeral(n).len() > 0,
        forall|i: int| 0 <= i < numeral(n).len() ==> 0x30 <= #[trigger] numeral(n)[i] <= 0x39,
        scan::digits_value(numeral(n)) == n,
    decreases n,
{
    npy_laws::lemma_decimal(n);
    let d = numeral(n);
    assert forall|i: int| 0 <= i < d.len() implies 0x30 <= #[trigger] d[i] <= 0x39 by {
        assert(text::is_digit(text::decimal(n)[i]));
    }
    if n < 10 {
        assert(d.drop_last() =~= seq![]);
        assert(scan::digits_value(d.drop_last()) == 0);
        assert(d.last() == 0x30 + n);
    } else {
        lemma_numeral_value(n / 10);
        assert(d.drop_last() =~= numeral(n / 10));
        assert(d.last() == 0x30 + n % 10);
    }
}

pub proof fn lemma_digits(b: Seq<u8>, pos: int, d: Seq<u8>)
    requires
        stands(b, pos, d),
        forall|i: int| 0 <= i < d.len() ==> 0x30 <= #[trigger] d[i] <= 0x39,
        pos + d.len() < b.len(),
        !(0x30 <= b[pos + d.len()] <= 0x39),
    ensures
        scan::digits_end(b, pos) == pos + d.len(),
        b.subrange(pos, pos + d.len()) == d,
    decreases d.len(),
{
    assert(b.subrange(pos, pos + d.len()) =~= d);
    if d.len() > 0 {
        let t = d.skip(1);
        assert(b[pos + 0] == d[0]);
        assert(stands(b, pos + 1, t)) by {
            assert forall|i: int| 0 <= i < t.len() implies b[pos + 1 + i] == #[trigger] t[i] by {
                assert(d[i + 1] == t[i]);
            }
        }
        assert forall|i: int| 0 <= i < t.len() implies 0x30 <= #[trigger] t[i] <= 0x39 by {
            assert(0x30 <= d[i + 1] <= 0x39);
        }
        lemma_digits(b, pos + 1, t);
    }
}

proof fn lemma_list(b: Seq<u8>, pos: int, s: Seq<usize>)
    requires
        stands(b, pos, list_text(s)),
    ensures
        safetensors::numbers_rest(b, pos) == Ok::<(Seq<usize>, int), Seq<char>>(
            (s, pos + list_text(s).len()),
        ),
    decreases s.len(),
{
    if s.len() == 0 {
        lemma_stands_one(b, pos, 0x5D);
        assert(s =~= seq![]);
    } else {
        let d = numeral(s[0] as nat);
        lemma_numeral_value(s[0] as nat);
        let rest = if s.len() == 1 {
            seq![0x5Du8]
        } else {
            seq![0x2Cu8] + list_text(s.skip(1))
        };
        assert(list_text(s) == d + rest);
        lemma_stands_both(b, pos, d, rest);
        let q = pos + d.len();
        assert(b[pos + 0] == d[0]);
        assert(scan::after_blanks(b, pos) == pos);
        assert(!scan::holds(b, pos, 0x5D));
        if s.len() == 1 {
            lemma_stands_one(b, q, 0x5D);
            lemma_digits(b, pos, d);
            assert(safetensors::numbers_rest(b, q) == Ok::<(Seq<usize>, int), Seq<char>>(
                (seq![], q + 1),
            ));
            assert(seq![s[0]] + seq![] =~= s);
        } else {
            lemma_stands_both(b, q, seq![0x2Cu8], list_text(s.skip(1)));
            lemma_stands_one(b, q, 0x2C);
            lemma_digits(b, pos, d);
            lemma_list(b, q + 1, s.skip(1));
            assert(seq![s[0]] + s.skip(1) =~= s);
        }
    }
}

proof fn lemma_keys()
    ensures
        is_plain(dtype_key()),
        is_plain(shape_key()),
        is_plain(offsets_key()),
        latin(dtype_key()) == "dtype"@,
        latin(shape_key()) == "shape"@,
        latin(offsets_key()) == "data_offsets"@,
        "dtype"@ != "shape"@,
        "dtype"@ != "data_offsets"@,
        "shape"@ != "data_offsets"@,
{
    reveal_strlit("dtype");
    reveal_strlit("shape");
    reveal_strlit("data_offsets");
    assert(latin(dtype_key()) =~= "dtype"@);
    assert(latin(shape_key()) =~= "shape"@);
    assert(latin(offsets_key()) =~= "data_offsets"@);
    assert("dtype"@[0] != "shape"@[0]);
    assert("dtype"@.len() != "data_offsets"@.len());
    assert("shape"@.len() != "data_offsets"@.len());
}

/// The first field.
proof fn lemma_dtype_field(b: Seq<u8>, pos: int, v: Seq<u8>, f: Fields)
    requires
        is_plain(v),
        stands(b, pos, key_text(dtype_key()) + quoted(v)),
    ensures
        safetensors::field_at(b, pos, f) == Ok::<(Fields, int), Seq<char>>(
            (
                Fields { dtype: Some(latin(v)), ..f },
                pos + (key_text(dtype_key()) + quoted(v)).len(),
            ),
        ),
        scan::after_blanks(b, pos) == pos,
        !scan::holds(b, pos, 0x7D),
{
    lemma_keys();
    let k = key_text(dtype_key());
    lemma_stands_both(b, pos, k, quoted(v));
    lemma_key(b, pos, dtype_key());
    lemma_string(b, pos + k.len(), v);
}

/// A field that is a list.
proof fn lemma_list_field(b: Seq<u8>, pos: int, key: Seq<u8>, s: Seq<usize>, f: Fields)
    requires
        key == shape_key() || key == offsets_key(),
        stands(b, pos, key_text(key) + (seq![0x5Bu8] + list_text(s))),
    ensures
        ({
            let g = if key == shape_key() {
                Fields { shape: Some(s), ..f }
            } else {
                Fields { offsets: Some(s), ..f }
            };
            safetensors::field_at(b, pos, f) == Ok::<(Fields, int), Seq<char>>(
                (g, pos + (key_text(key) + (seq![0x5Bu8] + list_text(s))).len()),
            )
        }),
        scan::after_blanks(b, pos) == pos,
        !scan::holds(b, pos, 0x7D),
{
    lemma_keys();
    let k = key_text(key);
    lemma_stands_both(b, pos, k, seq![0x5Bu8] + list_text(s));
    let p = pos + k.len();
    lemma_stands_both(b, p, seq![0x5Bu8], list_text(s));
    lemma_key(b, pos, key);
    lemma_stands_one(b, p, 0x5B);
    lemma_list(b, p + 1, s);
}

proof fn lemma_fields(b: Seq<u8>, pos: int, t: TensorLine)
    requires
        t.is_writable(),
        stands(b, pos, t.fields()),
    ensures
        ({
            let none = Fields { dtype: None, shape: None, offsets: None };
            let all = Fields {
                dtype: Some(latin(t.dtype)),
                shape: Some(t.shape),
                offsets: Some(seq![t.start, t.end]),
            };
            safetensors::fields_rest(b, pos, none) == Ok::<(Fields, int), Seq<char>>(
                (all, pos + t.fields().len()),
            )
        }),
{
    let f0 = Fields { dtype: None, shape: None, offsets: None };
    let x = key_text(dtype_key()) + quoted(t.dtype);
    let y = key_text(shape_key()) + (seq![0x5Bu8] + list_text(t.shape));
    let z = key_text(offsets_key()) + (seq![0x5Bu8] + list_text(seq![t.start, t.end]));
    let r3 = z + seq![0x7Du8];
    let r2 = y + (seq![0x2Cu8] + r3);
    assert(t.fields() =~= x + (seq![0x2Cu8] + r2));
    lemma_stands_both(b, pos, x, seq![0x2Cu8] + r2);
    let p1 = pos + x.len();
    lemma_stands_both(b, p1, seq![0x2Cu8], r2);
    lemma_stands_one(b, p1, 0x2C);
    let p2 = p1 + 1;
    lemma_stands_both(b, p2, y, seq![0x2Cu8] + r3);
    let p3 = p2 + y.len();
    lemma_stands_both(b, p3, seq![0x2Cu8], r3);
    lemma_stands_one(b, p3, 0x2C);
    let p4 = p3 + 1;
    lemma_stands_both(b, p4, z, seq![0x7Du8]);
    let p5 = p4 + z.len();
    lemma_stands_one(b, p5, 0x7D);
    lemma_dtype_field(b, pos, t.dtype, f0);
    let f1 = Fields { dtype: Some(latin(t.dtype)), ..f0 };
    lemma_list_field(b, p2, shape_key(), t.shape, f1);
    let f2 = Fields { shape: Some(t.shape), ..f1 };
    lemma_keys();
    assert(shape_key()[0] != offsets_key()[0]);
    lemma_list_field(b, p4, offsets_key(), seq![t.start, t.end], f2);
    let f3 = Fields { offsets: Some(seq![t.start, t.end]), ..f2 };
    assert(safetensors::fields_rest(b, p5, f3) == Ok::<(Fields, int), Seq<char>>((f3, p5 + 1)));
    assert(safetensors::fields_rest(b, p4, f2) == Ok::<(Fields, int), Seq<char>>((f3, p5 + 1)));
    assert(safetensors::fields_rest(b, p2, f1) == Ok::<(Fields, int), Seq<char>>((f3, p5 + 1)));
    assert(safetensors::fields_rest(b, pos, f0) == Ok::<(Fields, int), Seq<char>>((f3, p5 + 1)));
}

proof fn lemma_line(b: Seq<u8>, pos: int, t: TensorLine)
    requires
        t.is_writable(),
        stands(b, pos, t.written()),
    ensures
        safetensors::entry_at(b, pos) == Ok::<
            (Option<(Seq<char>, TensorMetaView)>, int),
            Seq<char>,
        >((Some(t.meant()), pos + t.written().len())),
        scan::after_blanks(b, pos) == pos,
        !scan::holds(b, pos, 0x7D),
{
    let k = key_text(t.name);
    lemma_stands_both(b, pos, k, seq![0x7Bu8] + t.fields());
    let p = pos + k.len();
    lemma_stands_both(b, p, seq![0x7Bu8], t.fields());
    lemma_key(b, pos, t.name);
    lemma_stands_one(b, p, 0x7B);
    lemma_fields(b, p + 1, t);
    let f = Fields {
        dtype: Some(latin(t.dtype)),
        shape: Some(t.shape),
        offsets: Some(seq![t.start, t.end]),
    };
    assert(safetensors::complete(f) == Ok::<TensorMetaView, Seq<char>>(t.meant().1));
}

/// One entry and what follows it.
proof fn lemma_entry_step(
    b: Seq<u8>,
    pos: int,
    q: int,
    e: (Seq<char>, TensorMetaView),
    rest: Seq<(Seq<char>, TensorMetaView)>,
    end: int,
)
    requires
        0 <= pos <= b.len(),
        scan::after_blanks(b, pos) == pos,
        !scan::holds(b, pos, 0x7D),
        safetensors::entry_at(b, pos) == Ok::<
            (Option<(Seq<char>, TensorMetaView)>, int),
            Seq<char>,
        >((Some(e), q)),
        scan::after_blanks(b, q) == q,
        scan::holds(b, q, 0x2C) || scan::holds(b, q, 0x7D),
        safetensors::entries_rest(
            b,
            if b[q] == 0x2C {
                q + 1
            } else {
                q
            },
        ) == Ok::<(Seq<(Seq<char>, TensorMetaView)>, int), Seq<char>>((rest, end)),
    ensures
        safetensors::entries_rest(b, pos) == Ok::<
            (Seq<(Seq<char>, TensorMetaView)>, int),
            Seq<char>,
        >((seq![e] + rest, end)),
{
}

/// The entries end with a brace.
proof fn lemma_entries_end(b: Seq<u8>, pos: int)
    requires
        scan::holds(b, pos, 0x7D),
    ensures
        safetensors::entries_rest(b, pos) == Ok::<
            (Seq<(Seq<char>, TensorMetaView)>, int),
            Seq<char>,
        >((seq![], pos + 1)),
{
}

/// What reading is to give for several tensors.
pub open spec fn all_meant(s: Seq<TensorLine>) -> Seq<(Seq<char>, TensorMetaView)> {
    Seq::new(s.len(), |i: int| s[i].meant())
}

proof fn lemma_lines(b: Seq<u8>, pos: int, s: Seq<TensorLine>)
    requires
        forall|i: int| 0 <= i < s.len() ==> (#[trigger] s[i]).is_writable(),
        stands(b, pos, lines_text(s)),
    ensures
        safetensors::entries_rest(b, pos) == Ok::<
            (Seq<(Seq<char>, TensorMetaView)>, int),
            Seq<char>,
        >((all_meant(s), pos + lines_text(s).len())),
    decreases s.len(),
{
    if s.len() == 0 {
        lemma_stands_one(b, pos, 0x7D);
        lemma_entries_end(b, pos);
        assert(all_meant(s) =~= seq![]);
    } else {
        let t = s.skip(1);
        let w = s[0].written();
        let rest = if s.len() == 1 {
            seq![0x7Du8]
        } else {
            seq![0x2Cu8] + lines_text(t)
        };
        let q = pos + w.len();
        let e = s[0].meant();
        assert(lines_text(s) == w + rest);
        lemma_stands_both(b, pos, w, rest);
        assert(s[0].is_writable());
        lemma_line(b, pos, s[0]);
        assert(seq![e] + all_meant(t) =~= all_meant(s));
        if s.len() == 1 {
            lemma_stands_one(b, q, 0x7D);
            lemma_entries_end(b, q);
            assert(all_meant(t) =~= seq![]);
            lemma_entry_step(b, pos, q, e, all_meant(t), q + 1);
        } else {
            lemma_stands_both(b, q, seq![0x2Cu8], lines_text(t));
            lemma_stands_one(b, q, 0x2C);
            assert forall|i: int| 0 <= i < t.len() implies (#[trigger] t[i]).is_writable() by {
                assert(s[i + 1].is_writable());
            }
            lemma_lines(b, q + 1, t);
            lemma_entry_step(b, pos, q, e, all_meant(t), q + 1 + lines_text(t).len());
        }
    }
}

/// A header that was written down plainly, for any number of tensors, reads as
/// these tensors: their names, dtypes, shapes and offsets, in the same order.
pub proof fn lemma_header(s: Seq<TensorLine>)
    requires
        forall|i: int| 0 <= i < s.len() ==> (#[trigger] s[i]).is_writable(),
    ensures
        safetensors::header_entries(header_text(s)) == Ok::<
            Seq<(Seq<char>, TensorMetaView)>,
            Seq<char>,
        >(all_meant(s)),
{
    let b = header_text(s);
    assert(stands(b, 0, b));
    lemma_stands_both(b, 0, seq![0x7Bu8], lines_text(s));
    lemma_stands_one(b, 0, 0x7B);
    lemma_lines(b, 1, s);
}

} // verus!
