//! `.safetensors` reader (subset for model weights).
//!
//! Layout: a little-endian `u64` header length, a JSON header, then raw
//! little-endian tensor data. Header entries look like
//! `"weight": {"dtype": "BF16", "shape": [576, 49152],
//! "data_offsets": [0, 56623104]}`.
//!
//! Supported dtypes (converted to binary32): `F32`, `F16`, `BF16`, `I32`,
//! `I64`, `U8`, `BOOL`. Anything else is [`IoError::Unsupported`].
//! The header parser is intentionally minimal: it handles exactly the flat
//! `{name: {dtype, shape, data_offsets}}` schema that safetensors writes.
use crate::bytes;
use crate::io::error::{malformed, IoError, IoErrorView};
use crate::io::npy;
use crate::io::npy::{Converter, Kind};
use crate::io::npz;
use crate::io::npz::{NamedArray, NamedArrayView};
use crate::scan;
use crate::text;
use crate::widths;
use vstd::prelude::*;
use vstd::string::*;

verus! {

/// Description of one tensor.
#[derive(Debug, Clone)]
pub struct TensorMeta {
    pub dtype: String,
    pub shape: Vec<usize>,
    pub start: usize,
    pub end: usize,
}

#[verifier::ext_equal]
pub struct TensorMetaView {
    pub dtype: Seq<char>,
    pub shape: Seq<usize>,
    pub start: usize,
    pub end: usize,
}

impl View for TensorMeta {
    type V = TensorMetaView;

    open spec fn view(&self) -> TensorMetaView {
        TensorMetaView {
            dtype: self.dtype@,
            shape: self.shape@,
            start: self.start,
            end: self.end,
        }
    }
}

/// A value that was read and the position behind it, or what is wrong.
pub type Parsed<T> = Result<(T, int), Seq<char>>;

/// The position behind `c`, which may stand behind blanks.
pub open spec fn expected(b: Seq<u8>, pos: int, c: u8) -> Result<int, Seq<char>> {
    let p = scan::after_blanks(b, pos);
    if scan::holds(b, p, c) {
        Ok(p + 1)
    } else {
        Err("unexpected character"@)
    }
}

/// The scalar value that four bytes denote in hexadecimal.
pub open spec fn unicode_escape(s: Seq<u8>) -> Option<char> {
    match scan::hex_number(s) {
        Some(v) => if vstd::utf8::is_scalar(v as u32) {
            Some((v as u32) as char)
        } else {
            None
        },
        None => None,
    }
}

/// One character of a string, which is no closing quote, from `pos` on.
pub open spec fn string_char(b: Seq<u8>, pos: int) -> Parsed<char> {
    if b[pos] != 0x5C {
        Ok((b[pos] as char, pos + 1))
    } else if pos + 1 >= b.len() {
        Err("bad escape"@)
    } else if b[pos + 1] == 0x22 {
        Ok(('"', pos + 2))
    } else if b[pos + 1] == 0x5C {
        Ok(('\\', pos + 2))
    } else if b[pos + 1] == 0x2F {
        Ok(('/', pos + 2))
    } else if b[pos + 1] == 0x6E {
        Ok(('\n', pos + 2))
    } else if b[pos + 1] == 0x74 {
        Ok(('\t', pos + 2))
    } else if b[pos + 1] == 0x75 {
        if pos + 5 >= b.len() {
            Err("bad unicode escape"@)
        } else {
            match unicode_escape(b.subrange(pos + 2, pos + 6)) {
                Some(c) => Ok((c, pos + 6)),
                None => Err("bad unicode escape"@),
            }
        }
    } else {
        Err("bad escape"@)
    }
}

/// The characters up to the closing quote.
pub open spec fn string_rest(b: Seq<u8>, pos: int) -> Parsed<Seq<char>>
    decreases b.len() - pos,
{
    if pos < 0 || pos >= b.len() {
        Err("unterminated string"@)
    } else if b[pos] == 0x22 {
        Ok((seq![], pos + 1))
    } else {
        match string_char(b, pos) {
            Err(m) => Err(m),
            Ok((c, next)) => match string_rest(b, next) {
                Err(m) => Err(m),
                Ok((rest, end)) => Ok((seq![c] + rest, end)),
            },
        }
    }
}

/// A double-quoted string at `pos`. A byte stands for the character of the
/// same number.
pub open spec fn string_at(b: Seq<u8>, pos: int) -> Parsed<Seq<char>> {
    if !scan::holds(b, pos, 0x22) {
        Err("expected string"@)
    } else {
        string_rest(b, pos + 1)
    }
}

pub proof fn lemma_string_rest(b: Seq<u8>, pos: int)
    requires
        0 <= pos,
    ensures
        string_rest(b, pos) matches Ok((_, end)) ==> pos < end <= b.len(),
    decreases b.len() - pos,
{
    if pos < b.len() && b[pos] != 0x22 {
        if let Ok((_, next)) = string_char(b, pos) {
            lemma_string_rest(b, next);
        }
    }
}

/// The numbers up to the closing bracket.
pub open spec fn numbers_rest(b: Seq<u8>, pos: int) -> Parsed<Seq<usize>>
    decreases b.len() - pos,
{
    let p = scan::after_blanks(b, pos);
    let q = scan::digits_end(b, p);
    let r = scan::after_blanks(b, q);
    if pos < 0 || pos > b.len() {
        Err("expected number"@)
    } else if scan::holds(b, p, 0x5D) {
        Ok((seq![], p + 1))
    } else if q == p {
        Err("expected number"@)
    } else if scan::digits_value(b.subrange(p, q)) > usize::MAX {
        Err("bad number"@)
    } else if scan::holds(b, r, 0x2C) || scan::holds(b, r, 0x5D) {
        proof {
            scan::lemma_after_blanks(b, pos);
            scan::lemma_digits_end(b, p);
            scan::lemma_after_blanks(b, q);
        }
        match numbers_rest(b, if b[r] == 0x2C {
            r + 1
        } else {
            r
        }) {
            Err(m) => Err(m),
            Ok((rest, end)) => Ok(
                (seq![scan::digits_value(b.subrange(p, q)) as usize] + rest, end),
            ),
        }
    } else {
        Err("expected , or ]"@)
    }
}

/// An array of unsigned numbers, which may stand behind blanks. A comma may
/// follow the last number.
pub open spec fn numbers_at(b: Seq<u8>, pos: int) -> Parsed<Seq<usize>> {
    match expected(b, pos, 0x5B) {
        Err(m) => Err(m),
        Ok(p) => numbers_rest(b, p),
    }
}

pub proof fn lemma_numbers_rest(b: Seq<u8>, pos: int)
    requires
        0 <= pos <= b.len(),
    ensures
        numbers_rest(b, pos) matches Ok((_, end)) ==> pos < end <= b.len(),
    decreases b.len() - pos,
{
    let p = scan::after_blanks(b, pos);
    scan::lemma_after_blanks(b, pos);
    let q = scan::digits_end(b, p);
    scan::lemma_digits_end(b, p);
    let r = scan::after_blanks(b, q);
    scan::lemma_after_blanks(b, q);
    if q > p {
        if scan::holds(b, r, 0x2C) {
            lemma_numbers_rest(b, r + 1);
        } else if scan::holds(b, r, 0x5D) {
            lemma_numbers_rest(b, r);
        }
    }
}

/// The position behind the brace that closes `depth` open ones; braces in
/// strings do not count.
pub open spec fn object_end(b: Seq<u8>, pos: int, depth: nat) -> Result<int, Seq<char>>
    decreases b.len() - pos,
{
    if depth == 0 {
        Ok(pos)
    } else if pos < 0 || pos >= b.len() {
        Err("unterminated metadata"@)
    } else if b[pos] == 0x7B {
        object_end(b, pos + 1, depth + 1)
    } else if b[pos] == 0x7D {
        object_end(b, pos + 1, (depth - 1) as nat)
    } else if b[pos] == 0x22 {
        match string_at(b, pos) {
            Err(m) => Err(m),
            Ok((_, end)) => {
                proof {
                    lemma_string_rest(b, pos + 1);
                }
                object_end(b, end, depth)
            },
        }
    } else {
        object_end(b, pos + 1, depth)
    }
}

pub proof fn lemma_object_end(b: Seq<u8>, pos: int, depth: nat)
    requires
        0 <= pos <= b.len(),
    ensures
        object_end(b, pos, depth) matches Ok(end) ==> pos <= end <= b.len(),
    decreases b.len() - pos,
{
    if depth > 0 && pos < b.len() {
        if b[pos] == 0x7B {
            lemma_object_end(b, pos + 1, depth + 1);
        } else if b[pos] == 0x7D {
            lemma_object_end(b, pos + 1, (depth - 1) as nat);
        } else if b[pos] == 0x22 {
            lemma_string_rest(b, pos + 1);
            if let Ok((_, end)) = string_at(b, pos) {
                lemma_object_end(b, end, depth);
            }
        } else {
            lemma_object_end(b, pos + 1, depth);
        }
    }
}

/// The fields of a tensor entry that have been read.
#[verifier::ext_equal]
pub struct Fields {
    pub dtype: Option<Seq<char>>,
    pub shape: Option<Seq<usize>>,
    pub offsets: Option<Seq<usize>>,
}

/// One field of a tensor entry: its key is at `pos`. A repeated field takes
/// the later value.
pub open spec fn field_at(b: Seq<u8>, pos: int, f: Fields) -> Parsed<Fields> {
    match string_at(b, pos) {
        Err(m) => Err(m),
        Ok((key, p)) => match expected(b, p, 0x3A) {
            Err(m) => Err(m),
            Ok(q) => {
                let v = scan::after_blanks(b, q);
                if key == "dtype"@ {
                    match string_at(b, v) {
                        Err(m) => Err(m),
                        Ok((s, end)) => Ok((Fields { dtype: Some(s), ..f }, end)),
                    }
                } else if key == "shape"@ {
                    match numbers_at(b, v) {
                        Err(m) => Err(m),
                        Ok((s, end)) => Ok((Fields { shape: Some(s), ..f }, end)),
                    }
                } else if key == "data_offsets"@ {
                    match numbers_at(b, v) {
                        Err(m) => Err(m),
                        Ok((s, end)) => Ok((Fields { offsets: Some(s), ..f }, end)),
                    }
                } else {
                    Err("unexpected tensor field"@)
                }
            },
        },
    }
}

pub proof fn lemma_expected(b: Seq<u8>, pos: int, c: u8)
    requires
        0 <= pos <= b.len(),
    ensures
        expected(b, pos, c) matches Ok(p) ==> pos < p <= b.len(),
{
    scan::lemma_after_blanks(b, pos);
}

pub proof fn lemma_field_at(b: Seq<u8>, pos: int, f: Fields)
    requires
        0 <= pos <= b.len(),
    ensures
        field_at(b, pos, f) matches Ok((_, end)) ==> pos < end <= b.len(),
{
    lemma_string_rest(b, pos + 1);
    if let Ok((_, p)) = string_at(b, pos) {
        lemma_expected(b, p, 0x3A);
        if let Ok(q) = expected(b, p, 0x3A) {
            scan::lemma_after_blanks(b, q);
            let v = scan::after_blanks(b, q);
            lemma_string_rest(b, v + 1);
            lemma_expected(b, v, 0x5B);
            if let Ok(w) = expected(b, v, 0x5B) {
                lemma_numbers_rest(b, w);
            }
        }
    }
}

/// The fields up to the closing brace.
pub open spec fn fields_rest(b: Seq<u8>, pos: int, f: Fields) -> Parsed<Fields>
    decreases b.len() - pos,
{
    let p = scan::after_blanks(b, pos);
    if pos < 0 || pos > b.len() {
        Err("expected string"@)
    } else if scan::holds(b, p, 0x7D) {
        Ok((f, p + 1))
    } else {
        match field_at(b, p, f) {
            Err(m) => Err(m),
            Ok((g, q)) => {
                let r = scan::after_blanks(b, q);
                if scan::holds(b, r, 0x2C) || scan::holds(b, r, 0x7D) {
                    proof {
                        scan::lemma_after_blanks(b, pos);
                        lemma_field_at(b, p, f);
                        scan::lemma_after_blanks(b, q);
                    }
                    fields_rest(b, if b[r] == 0x2C {
                        r + 1
                    } else {
                        r
                    }, g)
                } else {
                    Err("expected , or }"@)
                }
            },
        }
    }
}

pub proof fn lemma_fields_rest(b: Seq<u8>, pos: int, f: Fields)
    requires
        0 <= pos <= b.len(),
    ensures
        fields_rest(b, pos, f) matches Ok((_, end)) ==> pos < end <= b.len(),
    decreases b.len() - pos,
{
    let p = scan::after_blanks(b, pos);
    scan::lemma_after_blanks(b, pos);
    if !scan::holds(b, p, 0x7D) {
        lemma_field_at(b, p, f);
        if let Ok((g, q)) = field_at(b, p, f) {
            let r = scan::after_blanks(b, q);
            scan::lemma_after_blanks(b, q);
            if scan::holds(b, r, 0x2C) {
                lemma_fields_rest(b, r + 1, g);
            } else if scan::holds(b, r, 0x7D) {
                lemma_fields_rest(b, r, g);
            }
        }
    }
}

/// A complete tensor entry.
pub open spec fn complete(f: Fields) -> Result<TensorMetaView, Seq<char>> {
    match (f.dtype, f.shape, f.offsets) {
        (Some(dtype), Some(shape), Some(offsets)) => if offsets.len() == 2 {
            Ok(TensorMetaView { dtype, shape, start: offsets[0], end: offsets[1] })
        } else {
            Err("data_offsets must have 2 elements"@)
        },
        _ => Err("tensor entry missing dtype/shape/data_offsets"@),
    }
}

/// One entry of the header, whose name is at `pos`: a tensor, or metadata
/// that is passed over.
pub open spec fn entry_at(b: Seq<u8>, pos: int) -> Parsed<Option<(Seq<char>, TensorMetaView)>> {
    match string_at(b, pos) {
        Err(m) => Err(m),
        Ok((name, p)) => match expected(b, p, 0x3A) {
            Err(m) => Err(m),
            Ok(q) => match expected(b, q, 0x7B) {
                Err(m) => Err(m),
                Ok(r) => if name == "__metadata__"@ {
                    match object_end(b, r, 1) {
                        Err(m) => Err(m),
                        Ok(end) => Ok((None, end)),
                    }
                } else {
                    match fields_rest(b, r, Fields { dtype: None, shape: None, offsets: None }) {
                        Err(m) => Err(m),
                        Ok((f, end)) => match complete(f) {
                            Err(m) => Err(m),
                            Ok(meta) => Ok((Some((name, meta)), end)),
                        },
                    }
                },
            },
        },
    }
}

pub proof fn lemma_entry_at(b: Seq<u8>, pos: int)
    requires
        0 <= pos <= b.len(),
    ensures
        entry_at(b, pos) matches Ok((_, end)) ==> pos < end <= b.len(),
{
    lemma_string_rest(b, pos + 1);
    if let Ok((_, p)) = string_at(b, pos) {
        lemma_expected(b, p, 0x3A);
        if let Ok(q) = expected(b, p, 0x3A) {
            lemma_expected(b, q, 0x7B);
            if let Ok(r) = expected(b, q, 0x7B) {
                lemma_object_end(b, r, 1);
                lemma_fields_rest(b, r, Fields { dtype: None, shape: None, offsets: None });
            }
        }
    }
}

/// The entries up to the closing brace, in document order.
pub open spec fn entries_rest(b: Seq<u8>, pos: int) -> Parsed<Seq<(Seq<char>, TensorMetaView)>>
    decreases b.len() - pos,
{
    let p = scan::after_blanks(b, pos);
    if pos < 0 || pos > b.len() {
        Err("expected string"@)
    } else if scan::holds(b, p, 0x7D) {
        Ok((seq![], p + 1))
    } else {
        match entry_at(b, p) {
            Err(m) => Err(m),
            Ok((entry, q)) => {
                let r = scan::after_blanks(b, q);
                if scan::holds(b, r, 0x2C) || scan::holds(b, r, 0x7D) {
                    proof {
                        scan::lemma_after_blanks(b, pos);
                        lemma_entry_at(b, p);
                        scan::lemma_after_blanks(b, q);
                    }
                    match entries_rest(b, if b[r] == 0x2C {
                        r + 1
                    } else {
                        r
                    }) {
                        Err(m) => Err(m),
                        Ok((rest, end)) => match entry {
                            None => Ok((rest, end)),
                            Some(e) => Ok((seq![e] + rest, end)),
                        },
                    }
                } else {
                    Err("expected , or }"@)
                }
            },
        }
    }
}

/// The tensors that a header describes, in document order.
pub open spec fn header_entries(b: Seq<u8>) -> Result<
    Seq<(Seq<char>, TensorMetaView)>,
    Seq<char>,
> {
    match expected(b, 0, 0x7B) {
        Err(m) => Err(m),
        Ok(p) => match entries_rest(b, p) {
            Err(m) => Err(m),
            Ok((entries, end)) => if scan::after_blanks(b, end) != b.len() {
                Err("trailing data after header object"@)
            } else {
                Ok(entries)
            },
        },
    }
}

pub open spec fn bad(m: Seq<char>) -> IoErrorView {
    IoErrorView::Malformed("safetensors header: "@ + m)
}

fn bad_header(msg: &str) -> (r: IoError)
    ensures
        r@ == bad(msg@),
{
    let mut m = "safetensors header: ".to_owned();
    m.append(msg);
    IoError::Malformed(m)
}

fn expect(b: &[u8], pos: usize, c: u8) -> (r: Result<usize, IoError>)
    requires
        pos <= b@.len(),
    ensures
        match r {
            Ok(p) => expected(b@, pos as int, c) == Ok::<int, Seq<char>>(p as int) && pos < p
                <= b@.len(),
            Err(e) => expected(b@, pos as int, c) matches Err(m) && e@ == bad(m),
        },
{
    let p: usize = scan::skip_blanks(b, pos);
    if scan::at(b, p, c) {
        Ok(p + 1)
    } else {
        Err(bad_header("unexpected character"))
    }
}

fn read_escape(s: &[u8]) -> (r: Option<char>)
    requires
        s@.len() == 4,
    ensures
        r == unicode_escape(s@),
{
    match scan::read_hex4(s) {
        None => None,
        Some(v) => {
            let r = char::from_u32(v);
            proof {
                if let Some(c) = r {
                    vstd::utf8::char_u32_cast(c, v);
                }
            }
            r
        },
    }
}

/// Reads a double-quoted string at `pos`.
fn parse_string(b: &[u8], pos: usize) -> (r: Result<(String, usize), IoError>)
    requires
        pos <= b@.len(),
    ensures
        match r {
            Ok((s, end)) => string_at(b@, pos as int) == Ok::<(Seq<char>, int), Seq<char>>(
                (s@, end as int),
            ) && pos < end <= b@.len(),
            Err(e) => string_at(b@, pos as int) matches Err(m) && e@ == bad(m),
        },
{
    if !scan::at(b, pos, 0x22) {
        return Err(bad_header("expected string"));
    }
    let total: usize = b.len();
    let mut s = String::new();
    let mut p: usize = pos + 1;
    assert(s@ =~= seq![]);
    proof {
        if let Ok((t, end)) = string_rest(b@, p as int) {
            assert(s@ + t =~= t);
        }
    }
    while p < total
        invariant
            pos < p <= total == b@.len(),
            match string_rest(b@, p as int) {
                Ok((t, end)) => string_at(b@, pos as int) == Ok::<(Seq<char>, int), Seq<char>>(
                    (s@ + t, end),
                ),
                Err(m) => string_at(b@, pos as int) == Err::<(Seq<char>, int), Seq<char>>(m),
            },
        decreases total - p,
    {
        let ghost before = s@;
        let ghost here = p as int;
        let c: u8 = b[p];
        if c == 0x22 {
            assert(before + Seq::<char>::empty() =~= before);
            return Ok((s, p + 1));
        }
        if c == 0x5C {
            if p + 1 >= total {
                return Err(bad_header("bad escape"));
            }
            let x: u8 = b[p + 1];
            if x == 0x22 {
                s.push('"');
                p = p + 2;
            } else if x == 0x5C {
                s.push('\\');
                p = p + 2;
            } else if x == 0x2F {
                s.push('/');
                p = p + 2;
            } else if x == 0x6E {
                s.push('\n');
                p = p + 2;
            } else if x == 0x74 {
                s.push('\t');
                p = p + 2;
            } else if x == 0x75 {
                if total - p <= 5 {
                    return Err(bad_header("bad unicode escape"));
                }
                let hex = vstd::slice::slice_subrange(b, p + 2, p + 6);
                match read_escape(hex) {
                    Some(u) => {
                        s.push(u);
                    },
                    None => {
                        return Err(bad_header("bad unicode escape"));
                    },
                }
                p = p + 6;
            } else {
                return Err(bad_header("bad escape"));
            }
        } else {
            s.push(c as char);
            p = p + 1;
        }
        proof {
            let last = s@.last();
            assert(string_char(b@, here) == Ok::<(char, int), Seq<char>>((last, p as int)));
            if let Ok((t, end)) = string_rest(b@, p as int) {
                assert(before + (seq![last] + t) =~= s@ + t);
            }
        }
    }
    Err(bad_header("unterminated string"))
}

/// Reads an array of unsigned numbers.
fn parse_nums(b: &[u8], pos: usize) -> (r: Result<(Vec<usize>, usize), IoError>)
    requires
        pos <= b@.len(),
    ensures
        match r {
            Ok((v, end)) => numbers_at(b@, pos as int) == Ok::<(Seq<usize>, int), Seq<char>>(
                (v@, end as int),
            ) && pos < end <= b@.len(),
            Err(e) => numbers_at(b@, pos as int) matches Err(m) && e@ == bad(m),
        },
{
    let start: usize = match expect(b, pos, 0x5B) {
        Ok(p) => p,
        Err(e) => {
            return Err(e);
        },
    };
    let mut out: Vec<usize> = Vec::new();
    let mut p: usize = start;
    assert(out@ =~= seq![]);
    proof {
        if let Ok((t, end)) = numbers_rest(b@, p as int) {
            assert(out@ + t =~= t);
        }
    }
    loop
        invariant
            pos < p <= b@.len(),
            match numbers_rest(b@, p as int) {
                Ok((t, end)) => numbers_at(b@, pos as int) == Ok::<(Seq<usize>, int), Seq<char>>(
                    (out@ + t, end),
                ),
                Err(m) => numbers_at(b@, pos as int) == Err::<(Seq<usize>, int), Seq<char>>(m),
            },
        decreases b@.len() - p,
    {
        let ghost before = out@;
        let q: usize = scan::skip_blanks(b, p);
        if scan::at(b, q, 0x5D) {
            assert(before + Seq::<usize>::empty() =~= before);
            return Ok((out, q + 1));
        }
        let (end, value) = scan::read_digits(b, q);
        if end == q {
            return Err(bad_header("expected number"));
        }
        let x: usize = match value {
            Some(x) => x,
            None => {
                return Err(bad_header("bad number"));
            },
        };
        out.push(x);
        let r: usize = scan::skip_blanks(b, end);
        let next: usize = if scan::at(b, r, 0x2C) {
            r + 1
        } else if scan::at(b, r, 0x5D) {
            r
        } else {
            return Err(bad_header("expected , or ]"));
        };
        proof {
            if let Ok((t, e)) = numbers_rest(b@, next as int) {
                assert(before + (seq![x] + t) =~= out@ + t);
            }
        }
        p = next;
    }
}


/// Passes over an object from behind its opening brace.
fn skip_object(b: &[u8], pos: usize) -> (r: Result<usize, IoError>)
    requires
        0 < pos <= b@.len(),
    ensures
        match r {
            Ok(end) => object_end(b@, pos as int, 1) == Ok::<int, Seq<char>>(end as int) && pos
                <= end <= b@.len(),
            Err(e) => object_end(b@, pos as int, 1) matches Err(m) && e@ == bad(m),
        },
{
    let mut depth: usize = 1;
    let mut p: usize = pos;
    while depth > 0
        invariant
            0 < pos <= p <= b@.len(),
            depth <= p - pos + 1,
            object_end(b@, pos as int, 1) == object_end(b@, p as int, depth as nat),
        decreases b@.len() - p, depth,
    {
        if p >= b.len() {
            return Err(bad_header("unterminated metadata"));
        }
        let c: u8 = b[p];
        if c == 0x22 {
            match parse_string(b, p) {
                Ok((_, end)) => {
                    p = end;
                },
                Err(e) => {
                    return Err(e);
                },
            }
        } else {
            if c == 0x7B {
                depth = depth + 1;
            } else if c == 0x7D {
                depth = depth - 1;
            }
            p = p + 1;
        }
    }
    Ok(p)
}

/// Reads the fields of a tensor entry from behind its opening brace.
fn parse_meta(b: &[u8], pos: usize) -> (r: Result<(TensorMeta, usize), IoError>)
    requires
        pos <= b@.len(),
    ensures
        ({
            let none = Fields { dtype: None, shape: None, offsets: None };
            match fields_rest(b@, pos as int, none) {
                Err(m) => r matches Err(e) && e@ == bad(m),
                Ok((f, end)) => match complete(f) {
                    Err(m) => r matches Err(e) && e@ == bad(m),
                    Ok(meta) => r matches Ok((t, n)) && t@ == meta && n == end && pos < n
                        <= b@.len(),
                },
            }
        }),
{
    let mut dtype: Option<String> = None;
    let mut shape: Option<Vec<usize>> = None;
    let mut offsets: Option<Vec<usize>> = None;
    let mut p: usize = pos;
    let ghost none = Fields { dtype: None, shape: None, offsets: None };
    let ghost mut f = none;
    loop
        invariant
            pos <= p <= b@.len(),
            none == (Fields { dtype: None, shape: None, offsets: None }),
            f.dtype == (match dtype {
                Some(d) => Some(d@),
                None => None,
            }),
            f.shape == (match shape {
                Some(d) => Some(d@),
                None => None,
            }),
            f.offsets == (match offsets {
                Some(d) => Some(d@),
                None => None,
            }),
            fields_rest(b@, pos as int, none) == fields_rest(b@, p as int, f),
        decreases b@.len() - p,
    {
        let q: usize = scan::skip_blanks(b, p);
        if scan::at(b, q, 0x7D) {
            let (d, s, o): (String, Vec<usize>, Vec<usize>) = match (dtype, shape, offsets) {
                (Some(d), Some(s), Some(o)) => (d, s, o),
                _ => {
                    return Err(bad_header("tensor entry missing dtype/shape/data_offsets"));
                },
            };
            if o.len() != 2 {
                return Err(bad_header("data_offsets must have 2 elements"));
            }
            return Ok((TensorMeta { dtype: d, shape: s, start: o[0], end: o[1] }, q + 1));
        }
        let ghost g = f;
        let (key, k) = match parse_string(b, q) {
            Ok(x) => x,
            Err(e) => {
                return Err(e);
            },
        };
        let c: usize = match expect(b, k, 0x3A) {
            Ok(x) => x,
            Err(e) => {
                return Err(e);
            },
        };
        let v: usize = scan::skip_blanks(b, c);
        proof {
            reveal_strlit("dtype");
            reveal_strlit("shape");
            reveal_strlit("data_offsets");
            assert("dtype"@[0] != "shape"@[0]);
            assert("dtype"@.len() != "data_offsets"@.len());
            assert("shape"@.len() != "data_offsets"@.len());
        }
        let end: usize = if text::same_text(key.as_str(), "dtype") {
            match parse_string(b, v) {
                Ok((s, e)) => {
                    proof {
                        f = Fields { dtype: Some(s@), ..f };
                    }
                    dtype = Some(s);
                    e
                },
                Err(e) => {
                    return Err(e);
                },
            }
        } else if text::same_text(key.as_str(), "shape") {
            match parse_nums(b, v) {
                Ok((s, e)) => {
                    proof {
                        f = Fields { shape: Some(s@), ..f };
                    }
                    shape = Some(s);
                    e
                },
                Err(e) => {
                    return Err(e);
                },
            }
        } else if text::same_text(key.as_str(), "data_offsets") {
            match parse_nums(b, v) {
                Ok((s, e)) => {
                    proof {
                        f = Fields { offsets: Some(s@), ..f };
                    }
                    offsets = Some(s);
                    e
                },
                Err(e) => {
                    return Err(e);
                },
            }
        } else {
            return Err(bad_header("unexpected tensor field"));
        };
        assert(field_at(b@, q as int, g) == Ok::<(Fields, int), Seq<char>>((f, end as int)));
        let r: usize = scan::skip_blanks(b, end);
        p = if scan::at(b, r, 0x2C) {
            r + 1
        } else if scan::at(b, r, 0x7D) {
            r
        } else {
            return Err(bad_header("expected , or }"));
        };
    }
}

/// The models of header entries.
pub open spec fn meta_views(v: Seq<(String, TensorMeta)>) -> Seq<(Seq<char>, TensorMetaView)> {
    Seq::new(v.len(), |i: int| (v[i].0@, v[i].1@))
}

/// Minimal JSON parser for the safetensors header schema.
///
/// Returns `(name, meta)` pairs in document order. Handles objects, arrays
/// of numbers, and double-quoted strings with simple escapes.
pub fn parse_header(header: &str) -> (r: Result<Vec<(String, TensorMeta)>, IoError>)
    ensures
        match header_entries(vstd::utf8::encode_utf8(header@)) {
            Ok(entries) => r matches Ok(v) && meta_views(v@) == entries,
            Err(m) => r matches Err(e) && e@ == bad(m),
        },
{
    let b: &[u8] = header.as_bytes();
    let start: usize = match expect(b, 0, 0x7B) {
        Ok(p) => p,
        Err(e) => {
            return Err(e);
        },
    };
    let mut out: Vec<(String, TensorMeta)> = Vec::new();
    let mut p: usize = start;
    assert(meta_views(out@) =~= seq![]);
    proof {
        if let Ok((t, end)) = entries_rest(b@, p as int) {
            assert(meta_views(out@) + t =~= t);
        }
    }
    loop
        invariant
            start <= p <= b@.len(),
            b@ == vstd::utf8::encode_utf8(header@),
            expected(b@, 0, 0x7B) == Ok::<int, Seq<char>>(start as int),
            match entries_rest(b@, p as int) {
                Ok((t, end)) => entries_rest(b@, start as int) == Ok::<
                    (Seq<(Seq<char>, TensorMetaView)>, int),
                    Seq<char>,
                >((meta_views(out@) + t, end)),
                Err(m) => entries_rest(b@, start as int) == Err::<
                    (Seq<(Seq<char>, TensorMetaView)>, int),
                    Seq<char>,
                >(m),
            },
        decreases b@.len() - p,
    {
        let ghost before = meta_views(out@);
        let q: usize = scan::skip_blanks(b, p);
        if scan::at(b, q, 0x7D) {
            assert(before + Seq::<(Seq<char>, TensorMetaView)>::empty() =~= before);
            let end: usize = scan::skip_blanks(b, q + 1);
            if end != b.len() {
                return Err(bad_header("trailing data after header object"));
            }
            return Ok(out);
        }
        let (name, n) = match parse_string(b, q) {
            Ok(x) => x,
            Err(e) => {
                return Err(e);
            },
        };
        let c: usize = match expect(b, n, 0x3A) {
            Ok(x) => x,
            Err(e) => {
                return Err(e);
            },
        };
        let o: usize = match expect(b, c, 0x7B) {
            Ok(x) => x,
            Err(e) => {
                return Err(e);
            },
        };
        let ghost mut entry: Option<(Seq<char>, TensorMetaView)> = None;
        let end: usize = if text::same_text(name.as_str(), "__metadata__") {
            match skip_object(b, o) {
                Ok(x) => x,
                Err(e) => {
                    return Err(e);
                },
            }
        } else {
            match parse_meta(b, o) {
                Ok((meta, x)) => {
                    proof {
                        entry = Some((name@, meta@));
                    }
                    out.push((name, meta));
                    x
                },
                Err(e) => {
                    return Err(e);
                },
            }
        };
        proof {
            assert(entry_at(b@, q as int) == Ok::<
                (Option<(Seq<char>, TensorMetaView)>, int),
                Seq<char>,
            >((entry, end as int)));
            match entry {
                Some(e) => {
                    assert(meta_views(out@) =~= before + seq![e]);
                },
                None => {},
            }
        }
        let r: usize = scan::skip_blanks(b, end);
        let next: usize = if scan::at(b, r, 0x2C) {
            r + 1
        } else if scan::at(b, r, 0x7D) {
            r
        } else {
            return Err(bad_header("expected , or }"));
        };
        proof {
            if let Ok((t, e)) = entries_rest(b@, next as int) {
                match entry {
                    Some(x) => {
                        assert(before + (seq![x] + t) =~= meta_views(out@) + t);
                    },
                    None => {},
                }
            }
        }
        p = next;
    }
}


/// How the elements of a tensor are stored.
#[derive(Debug, Clone, Copy, PartialEq, Eq, Structural)]
pub enum Storage {
    Numeric(Converter),
    BFloat16,
}

impl Storage {
    pub open spec fn wf(self) -> bool {
        match self {
            Storage::Numeric(c) => c.wf(),
            Storage::BFloat16 => true,
        }
    }

    /// Bytes per element.
    pub open spec fn size(self) -> nat {
        match self {
            Storage::Numeric(c) => c.size as nat,
            Storage::BFloat16 => 2,
        }
    }

    /// The values of consecutive elements.
    pub open spec fn values(self, b: Seq<u8>, count: nat) -> Seq<u32> {
        match self {
            Storage::Numeric(c) => c.values(b, count),
            Storage::BFloat16 => Seq::new(
                count,
                |i: int|
                    widths::of_bfloat16(bytes::le_value(b.subrange(i * 2, i * 2 + 2)) as u16),
            ),
        }
    }

    fn itemsize(&self) -> (r: usize)
        requires
            self.wf(),
        ensures
            r == self.size(),
            1 <= r <= 8,
    {
        match self {
            Storage::Numeric(c) => c.size,
            Storage::BFloat16 => 2,
        }
    }

    fn convert_all(&self, b: &[u8], count: usize) -> (r: Vec<u32>)
        requires
            self.wf(),
            b@.len() == count * self.size(),
        ensures
            r@ == self.values(b@, count as nat),
    {
        match self {
            Storage::Numeric(c) => c.convert_all(b, count),
            Storage::BFloat16 => {
                let mut out: Vec<u32> = Vec::new();
                let mut i: usize = 0;
                let total: usize = b.len();
                while i < count
                    invariant
                        total == b@.len() == count * 2,
                        i <= count,
                        out@.len() == i,
                        forall|j: int| 0 <= j < i ==> #[trigger] out@[j]
                            == Storage::BFloat16.values(b@, count as nat)[j],
                    decreases count - i,
                {
                    let chunk = vstd::slice::slice_subrange(b, 2 * i, 2 * i + 2);
                    proof {
                        bytes::lemma_le_value_bound(chunk@);
                        vstd::arithmetic::power2::lemma2_to64();
                        assert(chunk@ == b@.subrange(i * 2, i * 2 + 2));
                    }
                    let v: u64 = bytes::read_le(chunk);
                    out.push(widths::bf16_to_f32(v as u16));
                    i = i + 1;
                }
                assert(out@ =~= Storage::BFloat16.values(b@, count as nat));
                out
            },
        }
    }
}

/// The storage that a dtype name stands for.
pub open spec fn storage_of(dtype: Seq<char>) -> Option<Storage> {
    if dtype == "F32"@ {
        Some(Storage::Numeric(Converter { kind: Kind::Float, size: 4, little: true }))
    } else if dtype == "F16"@ {
        Some(Storage::Numeric(Converter { kind: Kind::Float, size: 2, little: true }))
    } else if dtype == "BF16"@ {
        Some(Storage::BFloat16)
    } else if dtype == "I32"@ {
        Some(Storage::Numeric(Converter { kind: Kind::Signed, size: 4, little: true }))
    } else if dtype == "I64"@ {
        Some(Storage::Numeric(Converter { kind: Kind::Signed, size: 8, little: true }))
    } else if dtype == "U8"@ {
        Some(Storage::Numeric(Converter { kind: Kind::Unsigned, size: 1, little: true }))
    } else if dtype == "BOOL"@ {
        Some(Storage::Numeric(Converter { kind: Kind::Bool, size: 1, little: true }))
    } else {
        None
    }
}

pub open spec fn unknown_dtype(dtype: Seq<char>) -> IoErrorView {
    IoErrorView::Unsupported("safetensors dtype "@ + text::debug_quoted(dtype))
}

/// Maps a dtype name to the storage that it stands for.
pub fn safetensors_dtype(dtype: &str) -> (r: Result<Storage, IoError>)
    ensures
        match storage_of(dtype@) {
            Some(s) => r == Ok::<Storage, IoError>(s) && s.wf(),
            None => r matches Err(e) && e@ == unknown_dtype(dtype@),
        },
{
    if text::same_text(dtype, "F32") {
        Ok(Storage::Numeric(Converter { kind: Kind::Float, size: 4, little: true }))
    } else if text::same_text(dtype, "F16") {
        Ok(Storage::Numeric(Converter { kind: Kind::Float, size: 2, little: true }))
    } else if text::same_text(dtype, "BF16") {
        Ok(Storage::BFloat16)
    } else if text::same_text(dtype, "I32") {
        Ok(Storage::Numeric(Converter { kind: Kind::Signed, size: 4, little: true }))
    } else if text::same_text(dtype, "I64") {
        Ok(Storage::Numeric(Converter { kind: Kind::Signed, size: 8, little: true }))
    } else if text::same_text(dtype, "U8") {
        Ok(Storage::Numeric(Converter { kind: Kind::Unsigned, size: 1, little: true }))
    } else if text::same_text(dtype, "BOOL") {
        Ok(Storage::Numeric(Converter { kind: Kind::Bool, size: 1, little: true }))
    } else {
        let mut m = "safetensors dtype ".to_owned();
        let d = text::debug_text(dtype);
        m.append(d.as_str());
        Err(IoError::Unsupported(m))
    }
}

/// The opening of a message about a tensor.
pub open spec fn about(name: Seq<char>) -> Seq<char> {
    "tensor "@ + text::debug_quoted(name) + ": "@
}

/// The tensor that a header entry describes.
pub open spec fn tensor(data: Seq<u8>, name: Seq<char>, m: TensorMetaView) -> Result<
    NamedArrayView,
    IoErrorView,
> {
    if m.end < m.start || m.end > data.len() {
        Err(
            IoErrorView::Malformed(
                about(name) + "offsets ["@ + text::decimal(m.start as nat) + ", "@ + text::decimal(
                    m.end as nat,
                ) + ") outside data (len "@ + text::decimal(data.len()) + ")"@,
            ),
        )
    } else {
        match storage_of(m.dtype) {
            None => Err(unknown_dtype(m.dtype)),
            Some(s) => {
                let n = npy::product(m.shape);
                if n * s.size() > usize::MAX {
                    Err(IoErrorView::Malformed(about(name) + "shape overflow"@))
                } else if m.end - m.start != n * s.size() {
                    Err(
                        IoErrorView::Malformed(
                            about(name) + "byte range "@ + text::decimal((m.end - m.start) as nat)
                                + " != elements "@ + text::decimal(n) + " * itemsize "@
                                + text::decimal(s.size()),
                        ),
                    )
                } else {
                    Ok(
                        NamedArrayView {
                            name,
                            shape: m.shape,
                            data: s.values(data.subrange(m.start as int, m.end as int), n),
                        },
                    )
                }
            },
        }
    }
}

/// The tensors that header entries describe.
pub open spec fn tensors(data: Seq<u8>, entries: Seq<(Seq<char>, TensorMetaView)>) -> Result<
    Seq<NamedArrayView>,
    IoErrorView,
>
    decreases entries.len(),
{
    if entries.len() == 0 {
        Ok(seq![])
    } else {
        match tensor(data, entries[0].0, entries[0].1) {
            Err(e) => Err(e),
            Ok(a) => match tensors(data, entries.skip(1)) {
                Err(e) => Err(e),
                Ok(rest) => Ok(seq![a] + rest),
            },
        }
    }
}

/// The tensors of a `.safetensors` buffer, in header order.
pub open spec fn file_tensors(b: Seq<u8>) -> Result<Seq<NamedArrayView>, IoErrorView> {
    if b.len() < 8 {
        Err(IoErrorView::Malformed("file smaller than safetensors header"@))
    } else {
        let hlen = bytes::le_value(b.take(8)) as int;
        let raw = b.subrange(8, 8 + hlen);
        if hlen > b.len() - 8 {
            Err(IoErrorView::Malformed("safetensors header length exceeds file"@))
        } else if !vstd::utf8::valid_utf8(raw) {
            Err(IoErrorView::Malformed("safetensors header is not UTF-8"@))
        } else {
            match header_entries(raw) {
                Err(m) => Err(bad(m)),
                Ok(entries) => tensors(b.skip(8 + hlen), entries),
            }
        }
    }
}

/// Every tensor holds as many elements as its shape calls for.
pub proof fn lemma_tensors_sized(data: Seq<u8>, entries: Seq<(Seq<char>, TensorMetaView)>)
    ensures
        tensors(data, entries) matches Ok(a) ==> a.len() == entries.len() && forall|i: int|
            0 <= i < a.len() ==> (#[trigger] a[i]).data.len() == npy::product(a[i].shape),
    decreases entries.len(),
{
    if entries.len() > 0 {
        lemma_tensors_sized(data, entries.skip(1));
    }
}

/// A shape without a zero holds no fewer elements than a prefix of it.
pub proof fn lemma_product_prefix(shape: Seq<usize>, n: int)
    requires
        0 <= n <= shape.len(),
        forall|i: int| 0 <= i < shape.len() ==> #[trigger] shape[i] > 0,
    ensures
        npy::product(shape.take(n)) <= npy::product(shape),
    decreases shape.len(),
{
    if n < shape.len() {
        let front = shape.drop_last();
        assert(front.take(n) =~= shape.take(n));
        assert forall|i: int| 0 <= i < front.len() implies #[trigger] front[i] > 0 by {
            assert(shape[i] > 0);
        }
        lemma_product_prefix(front, n);
        assert(shape[shape.len() - 1] > 0);
        let (p, d) = (npy::product(front), shape.last() as nat);
        assert(p <= p * d) by (nonlinear_arith)
            requires
                d >= 1,
        ;
    } else {
        assert(shape.take(n) =~= shape);
    }
}

/// A zero among the dimensions leaves no elements.
pub proof fn lemma_product_zero(shape: Seq<usize>, at: int)
    requires
        0 <= at < shape.len(),
        shape[at] == 0,
    ensures
        npy::product(shape) == 0,
    decreases shape.len(),
{
    let front = shape.drop_last();
    if at < shape.len() - 1 {
        assert(front[at] == 0);
        lemma_product_zero(front, at);
        assert(0 * shape.last() as nat == 0);
    } else {
        let p = npy::product(front);
        assert(p * 0 == 0);
    }
}

/// The number of elements, unless it exceeds a machine word.
fn exact_count(shape: &[usize]) -> (r: Option<usize>)
    ensures
        match r {
            Some(n) => n == npy::product(shape@),
            None => npy::product(shape@) > usize::MAX,
        },
{
    let mut i: usize = 0;
    while i < shape.len()
        invariant
            i <= shape@.len(),
            forall|j: int| 0 <= j < i ==> #[trigger] shape@[j] > 0,
        decreases shape@.len() - i,
    {
        if shape[i] == 0 {
            proof {
                lemma_product_zero(shape@, i as int);
            }
            return Some(0);
        }
        i = i + 1;
    }
    let mut n: usize = 1;
    let mut k: usize = 0;
    while k < shape.len()
        invariant
            k <= shape@.len(),
            forall|j: int| 0 <= j < shape@.len() ==> #[trigger] shape@[j] > 0,
            n == npy::product(shape@.take(k as int)),
        decreases shape@.len() - k,
    {
        proof {
            assert(shape@.take(k + 1).drop_last() =~= shape@.take(k as int));
            lemma_product_prefix(shape@, k + 1);
        }
        match n.checked_mul(shape[k]) {
            Some(p) => {
                n = p;
            },
            None => {
                return None;
            },
        }
        k = k + 1;
    }
    assert(shape@.take(shape@.len() as int) =~= shape@);
    Some(n)
}

fn about_tensor(name: &str) -> (r: String)
    ensures
        r@ == about(name@),
{
    let mut m = "tensor ".to_owned();
    let q = text::debug_text(name);
    m.append(q.as_str());
    m.append(": ");
    m
}

fn read_tensor(data: &[u8], name: &str, m: &TensorMeta) -> (r: Result<NamedArray, IoError>)
    ensures
        match tensor(data@, name@, m@) {
            Ok(a) => r matches Ok(x) && x@ == a,
            Err(e) => r matches Err(x) && x@ == e,
        },
{
    if m.end < m.start || m.end > data.len() {
        let mut s = about_tensor(name);
        s.append("offsets [");
        text::push_decimal(&mut s, m.start as u64);
        s.append(", ");
        text::push_decimal(&mut s, m.end as u64);
        s.append(") outside data (len ");
        text::push_decimal(&mut s, data.len() as u64);
        s.append(")");
        return Err(IoError::Malformed(s));
    }
    let storage: Storage = match safetensors_dtype(m.dtype.as_str()) {
        Ok(s) => s,
        Err(e) => {
            return Err(e);
        },
    };
    let size: usize = storage.itemsize();
    let counted: Option<usize> = exact_count(m.shape.as_slice());
    let (n, want): (usize, usize) = match counted {
        Some(n) => match n.checked_mul(size) {
            Some(w) => (n, w),
            None => {
                let mut s = about_tensor(name);
                s.append("shape overflow");
                return Err(IoError::Malformed(s));
            },
        },
        None => {
            assert(npy::product(m.shape@) * storage.size() > usize::MAX) by (nonlinear_arith)
                requires
                    npy::product(m.shape@) > usize::MAX,
                    storage.size() >= 1,
            ;
            let mut s = about_tensor(name);
            s.append("shape overflow");
            return Err(IoError::Malformed(s));
        },
    };
    if m.end - m.start != want {
        let mut s = about_tensor(name);
        s.append("byte range ");
        text::push_decimal(&mut s, (m.end - m.start) as u64);
        s.append(" != elements ");
        text::push_decimal(&mut s, n as u64);
        s.append(" * itemsize ");
        text::push_decimal(&mut s, size as u64);
        return Err(IoError::Malformed(s));
    }
    let raw = vstd::slice::slice_subrange(data, m.start, m.end);
    let values = storage.convert_all(raw, n);
    let mut shape: Vec<usize> = Vec::new();
    shape.extend_from_slice(m.shape.as_slice());
    assert(shape@ =~= m.shape@);
    Ok(NamedArray { name: name.to_owned(), shape, data: values })
}

/// Reads all tensors from a `.safetensors` buffer (converted to binary32).
pub fn read_safetensors(b: &[u8]) -> (r: Result<Vec<NamedArray>, IoError>)
    ensures
        match file_tensors(b@) {
            Ok(a) => r matches Ok(v) && npz::views(v@) == a,
            Err(e) => r matches Err(x) && x@ == e,
        },
{
    if b.len() < 8 {
        return Err(malformed("file smaller than safetensors header"));
    }
    let field = vstd::slice::slice_subrange(b, 0, 8);
    assert(field@ =~= b@.take(8));
    let wide: u64 = bytes::read_le(field);
    if wide > (b.len() - 8) as u64 {
        return Err(malformed("safetensors header length exceeds file"));
    }
    let hlen: usize = wide as usize;
    let raw = vstd::slice::slice_subrange(b, 8, 8 + hlen);
    let header: &str = match text::utf8_text(raw) {
        Some(h) => h,
        None => {
            return Err(malformed("safetensors header is not UTF-8"));
        },
    };
    proof {
        vstd::utf8::decode_utf8_encode_utf8(raw@);
    }
    let metas: Vec<(String, TensorMeta)> = match parse_header(header) {
        Ok(m) => m,
        Err(e) => {
            return Err(e);
        },
    };
    let data = vstd::slice::slice_subrange(b, 8 + hlen, b.len());
    assert(data@ =~= b@.skip(8 + hlen));
    let ghost all = meta_views(metas@);
    let mut out: Vec<NamedArray> = Vec::new();
    let mut i: usize = 0;
    proof {
        assert(all.skip(0) =~= all);
        assert(npz::views(out@) =~= seq![]);
        if let Ok(s) = tensors(data@, all) {
            assert(npz::views(out@) + s =~= s);
        }
    }
    while i < metas.len()
        invariant
            i <= metas@.len(),
            all == meta_views(metas@),
            file_tensors(b@) == tensors(data@, all),
            match tensors(data@, all.skip(i as int)) {
                Ok(s) => file_tensors(b@) == Ok::<Seq<NamedArrayView>, IoErrorView>(
                    npz::views(out@) + s,
                ),
                Err(e) => file_tensors(b@) == Err::<Seq<NamedArrayView>, IoErrorView>(e),
            },
        decreases metas@.len() - i,
    {
        assert(all.skip(i as int)[0] == all[i as int]);
        assert(all.skip(i as int).skip(1) =~= all.skip(i + 1));
        match read_tensor(data, metas[i].0.as_str(), &metas[i].1) {
            Err(e) => {
                return Err(e);
            },
            Ok(a) => {
                let ghost before = npz::views(out@);
                let ghost av = a@;
                out.push(a);
                proof {
                    assert(npz::views(out@) =~= before + seq![av]);
                    if let Ok(s) = tensors(data@, all.skip(i + 1)) {
                        assert(before + (seq![av] + s) =~= npz::views(out@) + s);
                    }
                }
            },
        }
        i = i + 1;
    }
    assert(all.skip(i as int).len() == 0);
    assert(npz::views(out@) + Seq::<NamedArrayView>::empty() =~= npz::views(out@));
    Ok(out)
}

} // verus!
