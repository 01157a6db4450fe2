//! `.npy` format: header parsing, dtype conversion, order handling.
//!
//! A buffer holds the magic `\x93NUMPY`, the major and minor version, the
//! header length (two little-endian bytes in version 1.0, four in 2.0), an
//! ASCII dict like `{'descr': '<f4', 'fortran_order': False, 'shape': (3, 4), }`
//! and the array data.
use crate::bytes;
use crate::io::error::{malformed, IoError, IoErrorView};
use crate::single;
use crate::text;
use crate::widths;
use vstd::prelude::*;
use vstd::string::*;

verus! {

/// Position of `key` in quotes, single quotes tried before double ones.
pub open spec fn key_position(header: Seq<char>, key: Seq<char>) -> Option<int> {
    match text::find_from(header, seq!['\''] + key + seq!['\''], 0) {
        Some(p) => Some(p),
        None => text::find_from(header, seq!['"'] + key + seq!['"'], 0),
    }
}

/// What follows the colon behind a quoted `key`.
pub open spec fn value_text(header: Seq<char>, key: Seq<char>) -> Option<Seq<char>> {
    match key_position(header, key) {
        None => None,
        Some(p) => {
            let after = header.skip(p + key.len() + 2);
            match text::position(after, ':') {
                None => None,
                Some(c) => Some(text::trim_start(after.skip(c + 1))),
            }
        },
    }
}

/// The contents of the quoted string that is the value of `key`.
pub open spec fn quoted_value(header: Seq<char>, key: Seq<char>) -> Option<Seq<char>> {
    match value_text(header, key) {
        None => None,
        Some(v) => if v.len() > 0 && (v[0] == '\'' || v[0] == '"') {
            match text::position(v.skip(1), v[0]) {
                None => None,
                Some(end) => Some(v.skip(1).take(end)),
            }
        } else {
            None
        },
    }
}

/// The first comma or closing brace from `i` on that no bracket encloses.
pub open spec fn bare_end(v: Seq<char>, i: int, depth: nat) -> Option<int>
    decreases v.len() - i,
{
    if i < 0 || i >= v.len() {
        None
    } else if v[i] == '(' || v[i] == '[' {
        bare_end(v, i + 1, depth + 1)
    } else if v[i] == ')' || v[i] == ']' {
        bare_end(v, i + 1, if depth > 0 {
            (depth - 1) as nat
        } else {
            0
        })
    } else if (v[i] == ',' || v[i] == '}') && depth == 0 {
        Some(i)
    } else {
        bare_end(v, i + 1, depth)
    }
}

/// The unquoted value of `key`, trimmed.
pub open spec fn bare_value(header: Seq<char>, key: Seq<char>) -> Option<Seq<char>> {
    match value_text(header, key) {
        None => None,
        Some(v) => match bare_end(v, 0, 0) {
            None => None,
            Some(end) => Some(text::trim(v.take(end))),
        },
    }
}

/// The numbers between the commas of `s`; empty items are skipped.
pub open spec fn dims(s: Seq<char>) -> Option<Seq<usize>>
    decreases s.len(),
{
    let (head, tail): (Seq<char>, Option<Seq<char>>) = match text::position(s, ',') {
        Some(i) => if 0 <= i < s.len() {
            (s.take(i), Some(s.skip(i + 1)))
        } else {
            (s, None)
        },
        None => (s, None),
    };
    let item = text::trim(head);
    let first: Option<Seq<usize>> = if item.len() == 0 {
        Some(seq![])
    } else {
        match text::number(item) {
            Some(n) => Some(seq![n]),
            None => None,
        }
    };
    match (first, tail) {
        (None, _) => None,
        (Some(f), None) => Some(f),
        (Some(f), Some(t)) => match dims(t) {
            None => None,
            Some(r) => Some(f + r),
        },
    }
}

/// A shape in tuple notation: `()`, `(n,)`, `(d0, d1, ...)`.
pub open spec fn shape_value(raw: Seq<char>) -> Option<Seq<usize>> {
    let t = text::trim(raw);
    if t.len() >= 2 && t[0] == '(' && t.last() == ')' {
        dims(t.subrange(1, t.len() - 1))
    } else {
        None
    }
}

/// The description, storage order and shape in a header dict.
pub open spec fn header_fields(header: Seq<char>) -> Option<(Seq<char>, bool, Seq<usize>)> {
    match (
        quoted_value(header, "descr"@),
        bare_value(header, "fortran_order"@),
        bare_value(header, "shape"@),
    ) {
        (Some(descr), Some(order), Some(raw)) => match shape_value(raw) {
            Some(shape) => if order == "True"@ {
                Some((descr, true, shape))
            } else if order == "False"@ {
                Some((descr, false, shape))
            } else {
                None
            },
            None => None,
        },
        _ => None,
    }
}

/// Position of a quoted key.
fn find_key(header: &[char], key: &str) -> (r: Option<usize>)
    ensures
        match r {
            Some(p) => key_position(header@, key@) == Some(p as int) && p + key@.len() + 2
                <= header@.len(),
            None => key_position(header@, key@) is None,
        },
{
    let k = text::char_vec(key);
    let mut single_quoted: Vec<char> = Vec::new();
    single_quoted.push('\'');
    single_quoted.extend_from_slice(k.as_slice());
    single_quoted.push('\'');
    assert(single_quoted@ =~= seq!['\''] + key@ + seq!['\'']);
    match text::find_text(header, single_quoted.as_slice()) {
        Some(p) => Some(p),
        None => {
            let mut double_quoted: Vec<char> = Vec::new();
            double_quoted.push('"');
            double_quoted.extend_from_slice(k.as_slice());
            double_quoted.push('"');
            assert(double_quoted@ =~= seq!['"'] + key@ + seq!['"']);
            text::find_text(header, double_quoted.as_slice())
        },
    }
}

/// The characters after the colon behind a quoted key.
fn find_value<'a>(header: &'a [char], key: &str) -> (r: Option<&'a [char]>)
    ensures
        match r {
            Some(v) => value_text(header@, key@) == Some(v@),
            None => value_text(header@, key@) is None,
        },
{
    let p: usize = match find_key(header, key) {
        Some(p) => p,
        None => {
            return None;
        },
    };
    let k = text::char_vec(key);
    let total: usize = header.len();
    let from: usize = p + k.len() + 2;
    let after = vstd::slice::slice_subrange(header, from, total);
    assert(after@ =~= header@.skip(p + key@.len() + 2));
    match text::find_char(after, ':') {
        None => None,
        Some(c) => {
            let rest = vstd::slice::slice_subrange(after, c + 1, after.len());
            assert(rest@ =~= after@.skip(c + 1));
            Some(text::without_leading_space(rest))
        },
    }
}

/// Finds `'key': <quoted string>` and returns the string contents.
pub fn parse_quoted_value(header: &str, key: &str) -> (r: Option<String>)
    ensures
        match r {
            Some(s) => quoted_value(header@, key@) == Some(s@),
            None => quoted_value(header@, key@) is None,
        },
{
    let chars = text::char_vec(header);
    let v: &[char] = match find_value(chars.as_slice(), key) {
        Some(v) => v,
        None => {
            return None;
        },
    };
    if v.len() == 0 {
        return None;
    }
    let quote: char = v[0];
    if quote != '\'' && quote != '"' {
        return None;
    }
    let rest = vstd::slice::slice_subrange(v, 1, v.len());
    assert(rest@ =~= v@.skip(1));
    match text::find_char(rest, quote) {
        None => None,
        Some(end) => {
            let inner = vstd::slice::slice_subrange(rest, 0, end);
            assert(inner@ =~= rest@.take(end as int));
            Some(text::string_of(inner))
        },
    }
}

/// Finds `'key': <bare value up to the top-level , or }>` and returns it
/// trimmed. Bracket depth is tracked so `(2, 3, 4)` survives intact.
pub fn parse_bare_value(header: &str, key: &str) -> (r: Option<String>)
    ensures
        match r {
            Some(s) => bare_value(header@, key@) == Some(s@),
            None => bare_value(header@, key@) is None,
        },
{
    let chars = text::char_vec(header);
    let v: &[char] = match find_value(chars.as_slice(), key) {
        Some(v) => v,
        None => {
            return None;
        },
    };
    let mut depth: usize = 0;
    let mut i: usize = 0;
    while i < v.len()
        invariant
            i <= v@.len(),
            depth <= i,
            value_text(header@, key@) == Some(v@),
            bare_end(v@, 0, 0) == bare_end(v@, i as int, depth as nat),
        decreases v@.len() - i,
    {
        let c: char = v[i];
        if c == '(' || c == '[' {
            depth = depth + 1;
        } else if c == ')' || c == ']' {
            if depth > 0 {
                depth = depth - 1;
            }
        } else if (c == ',' || c == '}') && depth == 0 {
            let inner = vstd::slice::slice_subrange(v, 0, i);
            assert(inner@ =~= v@.take(i as int));
            return Some(text::string_of(text::trimmed(inner)));
        }
        i = i + 1;
    }
    None
}

/// Reads a shape in tuple notation.
pub fn parse_shape(raw: &str) -> (r: Option<Vec<usize>>)
    ensures
        match r {
            Some(v) => shape_value(raw@) == Some(v@),
            None => shape_value(raw@) is None,
        },
{
    let chars = text::char_vec(raw);
    let t = text::trimmed(chars.as_slice());
    if t.len() < 2 || t[0] != '(' || t[t.len() - 1] != ')' {
        return None;
    }
    let inner = vstd::slice::slice_subrange(t, 1, t.len() - 1);
    let mut out: Vec<usize> = Vec::new();
    let mut rest: &[char] = inner;
    loop
        invariant
            match dims(rest@) {
                Some(d) => dims(inner@) == Some(out@ + d),
                None => dims(inner@) is None,
            },
            shape_value(raw@) == dims(inner@),
        decreases rest@.len(),
    {
        let comma = text::find_char(rest, ',');
        let head: &[char] = match comma {
            Some(i) => vstd::slice::slice_subrange(rest, 0, i),
            None => rest,
        };
        assert(comma matches Some(i) ==> head@ =~= rest@.take(i as int));
        let item = text::trimmed(head);
        let ghost before = out@;
        if item.len() > 0 {
            match text::parse_number(item) {
                Some(n) => {
                    out.push(n);
                    assert(out@ =~= before + seq![n]);
                },
                None => {
                    return None;
                },
            }
        } else {
            assert(out@ =~= before + Seq::<usize>::empty());
        }
        match comma {
            Some(i) => {
                let total: usize = rest.len();
                let tail = vstd::slice::slice_subrange(rest, i + 1, total);
                assert(tail@ =~= rest@.skip(i + 1));
                proof {
                    if let Some(d) = dims(tail@) {
                        let f = if text::trim(head@).len() == 0 {
                            Seq::<usize>::empty()
                        } else {
                            seq![text::number(text::trim(head@))->0]
                        };
                        assert(out@ == before + f);
                        assert(out@ + d =~= before + (f + d));
                    }
                }
                rest = tail;
            },
            None => {
                return Some(out);
            },
        }
    }
}

pub open spec fn bad_header(header: Seq<char>) -> IoErrorView {
    IoErrorView::Malformed("cannot parse npy header: "@ + text::debug_quoted(header))
}

fn bad_header_error(header: &str) -> (r: IoError)
    ensures
        r@ == bad_header(header@),
{
    let mut m = "cannot parse npy header: ".to_owned();
    let d = text::debug_text(header);
    m.append(d.as_str());
    IoError::Malformed(m)
}

/// Minimal parser for the npy header dict. Handles single and double quotes,
/// `True`/`False`, `(d0, d1, ...)`, `(n,)` and `()`.
pub fn parse_header(header: &str) -> (r: Result<(String, bool, Vec<usize>), IoError>)
    ensures
        match r {
            Ok((descr, fortran, shape)) => header_fields(header@) == Some(
                (descr@, fortran, shape@),
            ),
            Err(e) => header_fields(header@) is None && e@ == bad_header(header@),
        },
{
    let descr: String = match parse_quoted_value(header, "descr") {
        Some(d) => d,
        None => {
            return Err(bad_header_error(header));
        },
    };
    let order: String = match parse_bare_value(header, "fortran_order") {
        Some(d) => d,
        None => {
            return Err(bad_header_error(header));
        },
    };
    let fortran: bool = if text::same_text(order.as_str(), "True") {
        true
    } else if text::same_text(order.as_str(), "False") {
        false
    } else {
        return Err(bad_header_error(header));
    };
    proof {
        reveal_strlit("True");
        reveal_strlit("False");
        assert("True"@.len() != "False"@.len());
    }
    let raw: String = match parse_bare_value(header, "shape") {
        Some(d) => d,
        None => {
            return Err(bad_header_error(header));
        },
    };
    match parse_shape(raw.as_str()) {
        Some(shape) => Ok((descr, fortran, shape)),
        None => Err(bad_header_error(header)),
    }
}


/// How the bytes of an element are to be read.
#[derive(Debug, Clone, Copy, PartialEq, Eq, Structural)]
pub enum Kind {
    Float,
    Signed,
    Unsigned,
    Bool,
}

/// An element type: how to turn its bytes into a binary32 value.
#[derive(Debug, Clone, Copy, PartialEq, Eq, Structural)]
pub struct Converter {
    pub kind: Kind,
    /// Bytes per element.
    pub size: usize,
    /// Least significant byte first.
    pub little: bool,
}

impl Converter {
    pub open spec fn wf(self) -> bool {
        match self.kind {
            Kind::Float => self.size == 8 || self.size == 4 || self.size == 2,
            Kind::Signed | Kind::Unsigned => self.size == 8 || self.size == 4 || self.size == 2
                || self.size == 1,
            Kind::Bool => self.size == 1,
        }
    }

    /// The unsigned integer that the bytes of an element spell.
    pub open spec fn raw(self, b: Seq<u8>) -> nat {
        if self.little {
            bytes::le_value(b)
        } else {
            bytes::be_value(b)
        }
    }

    /// The value of an element as binary32.
    pub open spec fn value(self, b: Seq<u8>) -> u32 {
        let v = self.raw(b);
        match self.kind {
            Kind::Float => if self.size == 8 {
                widths::of_binary64(v as u64)
            } else if self.size == 4 {
                v as u32
            } else {
                widths::of_binary16(v as u16)
            },
            Kind::Signed => single::of_integer(bytes::signed(v, 8 * self.size as nat)),
            Kind::Unsigned => single::of_integer(v as int),
            Kind::Bool => if v != 0 {
                single::ONE
            } else {
                0
            },
        }
    }

    /// The values of consecutive elements.
    pub open spec fn values(self, b: Seq<u8>, count: nat) -> Seq<u32> {
        Seq::new(
            count,
            |i: int| self.value(b.subrange(i * self.size, i * self.size + self.size)),
        )
    }

    /// Converts the bytes of one element.
    pub fn convert(&self, b: &[u8]) -> (r: u32)
        requires
            self.wf(),
            b@.len() == self.size,
        ensures
            r == self.value(b@),
    {
        proof {
            bytes::lemma_le_value_bound(b@);
            bytes::lemma_be_value_bound(b@);
            vstd::arithmetic::power2::lemma2_to64();
            vstd::arithmetic::power2::lemma2_to64_rest();
        }
        let v: u64 = if self.little {
            bytes::read_le(b)
        } else {
            bytes::read_be(b)
        };
        match self.kind {
            Kind::Float => {
                if self.size == 8 {
                    widths::f64_to_f32(v)
                } else if self.size == 4 {
                    v as u32
                } else {
                    widths::f16_to_f32(v as u16)
                }
            },
            Kind::Signed => {
                if self.size == 8 {
                    if v >= 0x8000_0000_0000_0000 {
                        single::from_negated(u64::MAX - v + 1)
                    } else {
                        single::from_u64(v)
                    }
                } else if self.size == 4 {
                    if v >= 0x8000_0000 {
                        single::from_negated(0x1_0000_0000 - v)
                    } else {
                        single::from_u64(v)
                    }
                } else if self.size == 2 {
                    if v >= 0x8000 {
                        single::from_negated(0x1_0000 - v)
                    } else {
                        single::from_u64(v)
                    }
                } else {
                    if v >= 0x80 {
                        single::from_negated(0x100 - v)
                    } else {
                        single::from_u64(v)
                    }
                }
            },
            Kind::Unsigned => single::from_u64(v),
            Kind::Bool => if v != 0 {
                single::ONE
            } else {
                0
            },
        }
    }

    /// Converts `count` consecutive elements.
    pub fn convert_all(&self, b: &[u8], count: usize) -> (r: Vec<u32>)
        requires
            self.wf(),
            b@.len() == count * self.size,
        ensures
            r@ == self.values(b@, count as nat),
    {
        let mut out: Vec<u32> = Vec::new();
        let mut i: usize = 0;
        let mut pos: usize = 0;
        let total: usize = b.len();
        while i < count
            invariant
                self.wf(),
                total == b@.len() == count * self.size,
                i <= count,
                pos == i * self.size,
                out@.len() == i,
                forall|j: int| 0 <= j < i ==> #[trigger] out@[j] == self.values(
                    b@,
                    count as nat,
                )[j],
            decreases count - i,
        {
            assert(pos + self.size <= count * self.size && pos + self.size == (i + 1) * self.size)
                by (nonlinear_arith)
                requires
                    pos == i * self.size,
                    i + 1 <= count,
                    self.size >= 0,
            ;
            let chunk = vstd::slice::slice_subrange(b, pos, pos + self.size);
            out.push(self.convert(chunk));
            pos = pos + self.size;
            i = i + 1;
        }
        assert(out@ =~= self.values(b@, count as nat));
        out
    }
}

/// The size in bytes that a digit of a `descr` stands for.
pub open spec fn size_digit(c: char) -> Option<usize> {
    if c == '1' {
        Some(1)
    } else if c == '2' {
        Some(2)
    } else if c == '4' {
        Some(4)
    } else if c == '8' {
        Some(8)
    } else {
        None
    }
}

/// The element type that a `descr` names: byte order, kind and size.
///
/// These are `f2 f4 f8`, `i1 i2 i4 i8` and `u1 u2 u4 u8` behind `<` or `>`, and
/// `|u1` and `|b1`. Complex, strings, void, object and datetime are no element
/// types.
pub open spec fn dtype_of(descr: Seq<char>) -> Option<Converter> {
    if descr.len() != 3 {
        None
    } else {
        let (endian, kind) = (descr[0], descr[1]);
        match size_digit(descr[2]) {
            None => None,
            Some(size) => if endian == '|' {
                if size != 1 {
                    None
                } else if kind == 'u' {
                    Some(Converter { kind: Kind::Unsigned, size, little: true })
                } else if kind == 'b' {
                    Some(Converter { kind: Kind::Bool, size, little: true })
                } else {
                    None
                }
            } else if endian == '<' || endian == '>' {
                let little = endian == '<';
                if kind == 'f' && size != 1 {
                    Some(Converter { kind: Kind::Float, size, little })
                } else if kind == 'i' {
                    Some(Converter { kind: Kind::Signed, size, little })
                } else if kind == 'u' {
                    Some(Converter { kind: Kind::Unsigned, size, little })
                } else {
                    None
                }
            } else {
                None
            },
        }
    }
}

pub open spec fn unknown_dtype(descr: Seq<char>) -> IoErrorView {
    IoErrorView::Unsupported("dtype "@ + text::debug_quoted(descr))
}

/// Maps a numpy `descr` to an element type.
pub fn dtype_converter(descr: &str) -> (r: Result<Converter, IoError>)
    ensures
        match r {
            Ok(c) => dtype_of(descr@) == Some(c) && c.wf(),
            Err(e) => dtype_of(descr@) is None && e@ == unknown_dtype(descr@),
        },
{
    let chars = text::char_vec(descr);
    let found: Option<Converter> = if chars.len() != 3 {
        None
    } else {
        let endian: char = chars[0];
        let kind: char = chars[1];
        let digit: char = chars[2];
        let size: usize = if digit == '1' {
            1
        } else if digit == '2' {
            2
        } else if digit == '4' {
            4
        } else if digit == '8' {
            8
        } else {
            0
        };
        if size == 0 {
            None
        } else if endian == '|' {
            if size != 1 {
                None
            } else if kind == 'u' {
                Some(Converter { kind: Kind::Unsigned, size, little: true })
            } else if kind == 'b' {
                Some(Converter { kind: Kind::Bool, size, little: true })
            } else {
                None
            }
        } else if endian == '<' || endian == '>' {
            let little = endian == '<';
            if kind == 'f' && size != 1 {
                Some(Converter { kind: Kind::Float, size, little })
            } else if kind == 'i' {
                Some(Converter { kind: Kind::Signed, size, little })
            } else if kind == 'u' {
                Some(Converter { kind: Kind::Unsigned, size, little })
            } else {
                None
            }
        } else {
            None
        }
    };
    match found {
        Some(c) => Ok(c),
        None => {
            let mut m = "dtype ".to_owned();
            let d = text::debug_text(descr);
            m.append(d.as_str());
            Err(IoError::Unsupported(m))
        },
    }
}

/// The number of elements of an array.
pub open spec fn product(shape: Seq<usize>) -> nat
    decreases shape.len(),
{
    if shape.len() == 0 {
        1
    } else {
        product(shape.drop_last()) * shape.last() as nat
    }
}

/// The product taken from left to right, where no step exceeds a machine word.
pub open spec fn checked_product(shape: Seq<usize>) -> Option<nat>
    decreases shape.len(),
{
    if shape.len() == 0 {
        Some(1)
    } else {
        match checked_product(shape.drop_last()) {
            None => None,
            Some(p) => if p * shape.last() as nat <= usize::MAX {
                Some(p * shape.last() as nat)
            } else {
                None
            },
        }
    }
}

pub proof fn lemma_checked_product(shape: Seq<usize>)
    ensures
        checked_product(shape) matches Some(p) ==> p == product(shape) && p <= usize::MAX,
    decreases shape.len(),
{
    if shape.len() > 0 {
        lemma_checked_product(shape.drop_last());
    }
}

/// A prefix of a shape that fits also fits.
pub proof fn lemma_checked_prefix(shape: Seq<usize>, n: int)
    requires
        0 <= n <= shape.len(),
    ensures
        checked_product(shape.take(n)) is None ==> checked_product(shape) is None,
    decreases shape.len(),
{
    if n < shape.len() {
        assert(shape.drop_last().take(n) =~= shape.take(n));
        lemma_checked_prefix(shape.drop_last(), n);
    } else {
        assert(shape.take(n) =~= shape);
    }
}

/// The number of elements, unless it exceeds a machine word on the way.
pub fn element_count(shape: &[usize]) -> (r: Option<usize>)
    ensures
        match r {
            Some(n) => checked_product(shape@) == Some(n as nat),
            None => checked_product(shape@) is None,
        },
{
    let mut n: usize = 1;
    let mut i: usize = 0;
    while i < shape.len()
        invariant
            i <= shape@.len(),
            checked_product(shape@.take(i as int)) == Some(n as nat),
        decreases shape@.len() - i,
    {
        proof {
            assert(shape@.take(i + 1).drop_last() =~= shape@.take(i as int));
            lemma_checked_prefix(shape@, i + 1);
        }
        match n.checked_mul(shape[i]) {
            None => {
                return None;
            },
            Some(p) => {
                n = p;
            },
        }
        i = i + 1;
    }
    assert(shape@.take(shape@.len() as int) =~= shape@);
    Some(n)
}

/// Position in column-major storage of the element at row-major position `i`.
pub open spec fn fortran_offset(i: nat, shape: Seq<usize>) -> nat
    decreases shape.len(),
{
    if shape.len() == 0 {
        0
    } else {
        let d = shape.last() as nat;
        fortran_offset(i / d, shape.drop_last()) + (i % d) * product(shape.drop_last())
    }
}

pub proof fn lemma_fortran_offset_bound(i: nat, shape: Seq<usize>)
    requires
        i < product(shape),
    ensures
        fortran_offset(i, shape) < product(shape),
    decreases shape.len(),
{
    if shape.len() > 0 {
        let d = shape.last() as nat;
        let p = product(shape.drop_last());
        assert(d > 0) by (nonlinear_arith)
            requires
                i < p * d,
                i >= 0,
        ;
        crate::ieee::lemma_div_parts(i, d);
        let (q, r) = (i / d, i % d);
        assert(q < p) by (nonlinear_arith)
            requires
                i < p * d,
                i == d * q + r,
                r >= 0,
        ;
        lemma_fortran_offset_bound(q, shape.drop_last());
        let f = fortran_offset(q, shape.drop_last());
        assert(f + r * p < p * d) by (nonlinear_arith)
            requires
                f < p,
                r + 1 <= d,
        ;
    }
}

/// Whether `idx` addresses an element of an array of this shape.
pub open spec fn in_shape(idx: Seq<nat>, shape: Seq<usize>) -> bool {
    idx.len() == shape.len() && forall|k: int| 0 <= k < idx.len() ==> idx[k] < #[trigger] shape[k]
}

/// Row-major position of the element at a multi-index.
pub open spec fn c_position(idx: Seq<nat>, shape: Seq<usize>) -> nat
    decreases shape.len(),
{
    if shape.len() == 0 || idx.len() == 0 {
        0
    } else {
        c_position(idx.drop_last(), shape.drop_last()) * shape.last() as nat + idx.last()
    }
}

/// Column-major position of the element at a multi-index.
pub open spec fn f_position(idx: Seq<nat>, shape: Seq<usize>) -> nat
    decreases shape.len(),
{
    if shape.len() == 0 || idx.len() == 0 {
        0
    } else {
        f_position(idx.drop_last(), shape.drop_last()) + idx.last() * product(shape.drop_last())
    }
}

/// Data in row-major order from data in column-major order.
pub open spec fn c_order(data: Seq<u32>, shape: Seq<usize>) -> Seq<u32> {
    Seq::new(product(shape), |i: int| data[fortran_offset(i as nat, shape) as int])
}

/// Reordering keeps every element at its multi-index.
pub proof fn lemma_c_order_keeps_elements(data: Seq<u32>, shape: Seq<usize>, idx: Seq<nat>)
    requires
        in_shape(idx, shape),
    ensures
        c_position(idx, shape) < product(shape),
        c_order(data, shape)[c_position(idx, shape) as int] == data[f_position(idx, shape) as int],
{
    lemma_positions(shape, idx);
}

pub proof fn lemma_positions(shape: Seq<usize>, idx: Seq<nat>)
    requires
        in_shape(idx, shape),
    ensures
        c_position(idx, shape) < product(shape),
        fortran_offset(c_position(idx, shape), shape) == f_position(idx, shape),
    decreases shape.len(),
{
    if shape.len() > 0 {
        let (rest, head) = (shape.drop_last(), idx.drop_last());
        assert(in_shape(head, rest)) by {
            assert forall|k: int| 0 <= k < head.len() implies head[k] < #[trigger] rest[k] by {
                assert(idx[k] < shape[k]);
            }
        }
        lemma_positions(rest, head);
        let d = shape.last() as nat;
        let c = c_position(head, rest);
        let x = idx.last();
        assert(idx[shape.len() - 1] < shape[shape.len() - 1]);
        assert(c * d == d * c) by (nonlinear_arith);
        crate::ieee::lemma_div_unique(c * d + x, d, c, x);
        assert(c * d + x < product(rest) * d) by (nonlinear_arith)
            requires
                c + 1 <= product(rest),
                x < d,
        ;
    }
}

/// Converts column-major data to row-major order.
pub fn fortran_to_c(data: &[u32], shape: &[usize]) -> (r: Vec<u32>)
    requires
        checked_product(shape@) == Some(data@.len()),
    ensures
        r@ == c_order(data@, shape@),
{
    proof {
        lemma_checked_product(shape@);
    }
    // Column-major strides.
    let mut strides: Vec<usize> = Vec::new();
    let mut p: usize = 1;
    let mut k: usize = 0;
    while k < shape.len()
        invariant
            k <= shape@.len(),
            strides@.len() == k,
            checked_product(shape@) is Some,
            p == product(shape@.take(k as int)),
            forall|j: int| 0 <= j < k ==> #[trigger] strides@[j] == product(shape@.take(j)),
        decreases shape@.len() - k,
    {
        strides.push(p);
        proof {
            lemma_checked_prefix(shape@, k + 1);
            lemma_checked_product(shape@.take(k + 1));
            assert(shape@.take(k + 1).drop_last() =~= shape@.take(k as int));
        }
        p = p * shape[k];
        k = k + 1;
    }
    let n: usize = data.len();
    let mut out: Vec<u32> = Vec::new();
    let mut i: usize = 0;
    while i < n
        invariant
            n == data@.len() == product(shape@),
            i <= n,
            strides@.len() == shape@.len(),
            forall|j: int| 0 <= j < shape@.len() ==> #[trigger] strides@[j] == product(
                shape@.take(j),
            ),
            out@.len() == i,
            forall|j: int| 0 <= j < i ==> #[trigger] out@[j] == c_order(data@, shape@)[j],
        decreases n - i,
    {
        let mut rest: usize = i;
        let mut off: usize = 0;
        let mut d: usize = shape.len();
        proof {
            assert(shape@.take(shape@.len() as int) =~= shape@);
            lemma_fortran_offset_bound(i as nat, shape@);
        }
        while d > 0
            invariant
                d <= shape@.len(),
                strides@.len() == shape@.len(),
                forall|j: int| 0 <= j < shape@.len() ==> #[trigger] strides@[j] == product(
                    shape@.take(j),
                ),
                rest < product(shape@.take(d as int)),
                off + fortran_offset(rest as nat, shape@.take(d as int)) == fortran_offset(
                    i as nat,
                    shape@,
                ),
                fortran_offset(i as nat, shape@) < data@.len() <= usize::MAX,
            decreases d,
        {
            d = d - 1;
            let ghost t = shape@.take(d + 1);
            proof {
                assert(t.drop_last() =~= shape@.take(d as int));
                assert(t.last() == shape@[d as int]);
                let m = product(t.drop_last());
                let w = shape@[d as int] as nat;
                assert(w > 0) by (nonlinear_arith)
                    requires
                        rest < m * w,
                        rest >= 0,
                ;
                crate::ieee::lemma_div_parts(rest as nat, w);
                let (q, r) = (rest as nat / w, rest as nat % w);
                assert(q < m) by (nonlinear_arith)
                    requires
                        rest < m * w,
                        rest == w * q + r,
                        r >= 0,
                ;
                assert(r * m >= 0) by (nonlinear_arith);
            }
            off = off + (rest % shape[d]) * strides[d];
            rest = rest / shape[d];
        }
        out.push(data[off]);
        i = i + 1;
    }
    assert(out@ =~= c_order(data@, shape@));
    out
}


/// Row-major binary32 data with its shape.
#[derive(Debug, Clone)]
pub struct RawArray {
    pub shape: Vec<usize>,
    /// Bit patterns of the elements.
    pub data: Vec<u32>,
}

#[verifier::ext_equal]
pub struct RawArrayView {
    pub shape: Seq<usize>,
    pub data: Seq<u32>,
}

impl View for RawArray {
    type V = RawArrayView;

    open spec fn view(&self) -> RawArrayView {
        RawArrayView { shape: self.shape@, data: self.data@ }
    }
}

pub fn same_shape(a: &[usize], b: &[usize]) -> (r: bool)
    ensures
        r == (a@ == b@),
{
    if a.len() != b.len() {
        return false;
    }
    let mut i: usize = 0;
    while i < a.len()
        invariant
            i <= a@.len() == b@.len(),
            a@.take(i as int) =~= b@.take(i as int),
        decreases a@.len() - i,
    {
        if a[i] != b[i] {
            return false;
        }
        assert(a@.take(i + 1) =~= a@.take(i as int).push(a@[i as int]));
        assert(b@.take(i + 1) =~= b@.take(i as int).push(b@[i as int]));
        i = i + 1;
    }
    assert(a@.take(i as int) =~= a@);
    assert(b@.take(i as int) =~= b@);
    true
}

impl RawArrayView {
    /// The same shape and equal numbers.
    pub open spec fn same(self, other: RawArrayView) -> bool {
        self.shape == other.shape && single::same_numbers(self.data, other.data)
    }
}

impl PartialEq for RawArray {
    /// The same shape and equal numbers.
    fn eq(&self, other: &Self) -> (r: bool) {
        same_shape(self.shape.as_slice(), other.shape.as_slice()) && single::equal_lists(
            self.data.as_slice(),
            other.data.as_slice(),
        )
    }
}

impl vstd::std_specs::cmp::PartialEqSpecImpl for RawArray {
    open spec fn obeys_eq_spec() -> bool {
        true
    }

    open spec fn eq_spec(&self, other: &Self) -> bool {
        self@.same(other@)
    }
}

/// The bytes `\x93NUMPY`.
pub open spec fn magic() -> Seq<u8> {
    seq![0x93u8, 0x4E, 0x55, 0x4D, 0x50, 0x59]
}

/// Where the header of a buffer begins and ends.
pub open spec fn header_span(b: Seq<u8>) -> Result<(int, int), IoErrorView> {
    if b.len() < 10 || b.take(6) != magic() {
        Err(IoErrorView::Malformed("bad npy magic"@))
    } else if b[7] != 0 || (b[6] != 1 && b[6] != 2) {
        Err(
            IoErrorView::Unsupported(
                "npy version "@ + text::decimal(b[6] as nat) + "."@ + text::decimal(b[7] as nat)
                    + " (supports 1.0 and 2.0)"@,
            ),
        )
    } else if b[6] == 2 && b.len() < 12 {
        Err(IoErrorView::Malformed("truncated npy header"@))
    } else {
        let start: int = if b[6] == 1 {
            10
        } else {
            12
        };
        let end = start + bytes::le_value(b.subrange(8, start));
        if end > usize::MAX {
            Err(IoErrorView::Malformed("npy header length overflow"@))
        } else if b.len() < end {
            Err(IoErrorView::Malformed("truncated npy header"@))
        } else {
            Ok((start, end))
        }
    }
}

/// The array data behind a header.
pub open spec fn payload(
    b: Seq<u8>,
    c: Converter,
    fortran: bool,
    shape: Seq<usize>,
) -> Result<RawArrayView, IoErrorView> {
    match checked_product(shape) {
        None => Err(IoErrorView::Malformed("npy shape overflow"@)),
        Some(n) => if n * c.size as nat > usize::MAX {
            Err(IoErrorView::Malformed("npy data size overflow"@))
        } else if b.len() != n * c.size as nat {
            Err(
                IoErrorView::Malformed(
                    "npy data length "@ + text::decimal(b.len()) + " != shape elements "@
                        + text::decimal(n) + " * itemsize "@ + text::decimal(c.size as nat),
                ),
            )
        } else if fortran {
            Ok(RawArrayView { shape, data: c_order(c.values(b, n), shape) })
        } else {
            Ok(RawArrayView { shape, data: c.values(b, n) })
        },
    }
}

/// The array in a `.npy` buffer.
pub open spec fn npy_array(b: Seq<u8>) -> Result<RawArrayView, IoErrorView> {
    match header_span(b) {
        Err(e) => Err(e),
        Ok((start, end)) => {
            let raw = b.subrange(start, end);
            if !vstd::utf8::valid_utf8(raw) {
                Err(IoErrorView::Malformed("npy header is not ASCII"@))
            } else {
                let header = vstd::utf8::decode_utf8(raw);
                match header_fields(header) {
                    None => Err(bad_header(header)),
                    Some((descr, fortran, shape)) => match dtype_of(descr) {
                        None => Err(unknown_dtype(descr)),
                        Some(c) => payload(b.skip(end), c, fortran, shape),
                    },
                }
            }
        },
    }
}

/// An array reading and the model it stands for.
pub open spec fn reads_as(
    r: Result<RawArray, IoError>,
    model: Result<RawArrayView, IoErrorView>,
) -> bool {
    match r {
        Ok(a) => model == Ok::<RawArrayView, IoErrorView>(a@),
        Err(e) => model == Err::<RawArrayView, IoErrorView>(e@),
    }
}

fn read_span(b: &[u8]) -> (r: Result<(usize, usize), IoError>)
    ensures
        match r {
            Ok((start, end)) => header_span(b@) == Ok::<(int, int), IoErrorView>(
                (start as int, end as int),
            ) && start <= end <= b@.len(),
            Err(e) => header_span(b@) == Err::<(int, int), IoErrorView>(e@),
        },
{
    if b.len() < 10 {
        return Err(malformed("bad npy magic"));
    }
    let head = vstd::slice::slice_subrange(b, 0, 6);
    let want: [u8; 6] = [0x93, 0x4E, 0x55, 0x4D, 0x50, 0x59];
    assert(head@ =~= b@.take(6));
    assert(want@ =~= magic());
    if !bytes::same_bytes(head, want.as_slice()) {
        return Err(malformed("bad npy magic"));
    }
    let major: u8 = b[6];
    let minor: u8 = b[7];
    if minor != 0 || (major != 1 && major != 2) {
        let mut m = "npy version ".to_owned();
        text::push_decimal(&mut m, major as u64);
        m.append(".");
        text::push_decimal(&mut m, minor as u64);
        m.append(" (supports 1.0 and 2.0)");
        return Err(IoError::Unsupported(m));
    }
    if major == 2 && b.len() < 12 {
        return Err(malformed("truncated npy header"));
    }
    let start: usize = if major == 1 {
        10
    } else {
        12
    };
    let field = vstd::slice::slice_subrange(b, 8, start);
    proof {
        bytes::lemma_le_value_bound(field@);
        vstd::arithmetic::power2::lemma2_to64();
        vstd::arithmetic::power2::lemma2_to64_rest();
    }
    let hlen: usize = bytes::read_le(field) as usize;
    match start.checked_add(hlen) {
        None => Err(malformed("npy header length overflow")),
        Some(end) => if b.len() < end {
            Err(malformed("truncated npy header"))
        } else {
            Ok((start, end))
        },
    }
}

fn read_payload(b: &[u8], c: Converter, fortran: bool, shape: Vec<usize>) -> (r: Result<
    RawArray,
    IoError,
>)
    requires
        c.wf(),
    ensures
        reads_as(r, payload(b@, c, fortran, shape@)),
{
    let n: usize = match element_count(shape.as_slice()) {
        Some(n) => n,
        None => {
            return Err(malformed("npy shape overflow"));
        },
    };
    let want: usize = match n.checked_mul(c.size) {
        Some(w) => w,
        None => {
            return Err(malformed("npy data size overflow"));
        },
    };
    if b.len() != want {
        let mut m = "npy data length ".to_owned();
        text::push_decimal(&mut m, b.len() as u64);
        m.append(" != shape elements ");
        text::push_decimal(&mut m, n as u64);
        m.append(" * itemsize ");
        text::push_decimal(&mut m, c.size as u64);
        return Err(IoError::Malformed(m));
    }
    let data = c.convert_all(b, n);
    if fortran {
        let sorted = fortran_to_c(data.as_slice(), shape.as_slice());
        Ok(RawArray { shape, data: sorted })
    } else {
        Ok(RawArray { shape, data })
    }
}

/// Reads a single `.npy` buffer.
pub fn read_npy_bytes(b: &[u8]) -> (r: Result<RawArray, IoError>)
    ensures
        reads_as(r, npy_array(b@)),
{
    let (start, end) = match read_span(b) {
        Ok(p) => p,
        Err(e) => {
            return Err(e);
        },
    };
    let raw = vstd::slice::slice_subrange(b, start, end);
    let header: &str = match text::utf8_text(raw) {
        Some(h) => h,
        None => {
            return Err(malformed("npy header is not ASCII"));
        },
    };
    let (descr, fortran, shape) = match parse_header(header) {
        Ok(f) => f,
        Err(e) => {
            return Err(e);
        },
    };
    let c: Converter = match dtype_converter(descr.as_str()) {
        Ok(c) => c,
        Err(e) => {
            return Err(e);
        },
    };
    let data = vstd::slice::slice_subrange(b, end, b.len());
    assert(data@ =~= b@.skip(end as int));
    read_payload(data, c, fortran, shape)
}

/// Dimensions in decimal, separated by a comma and a space.
pub open spec fn joined(shape: Seq<usize>) -> Seq<char>
    decreases shape.len(),
{
    if shape.len() == 0 {
        seq![]
    } else if shape.len() == 1 {
        text::decimal(shape[0] as nat)
    } else {
        joined(shape.drop_last()) + ", "@ + text::decimal(shape.last() as nat)
    }
}

/// A shape in Python's tuple notation.
pub open spec fn shape_text(shape: Seq<usize>) -> Seq<char> {
    if shape.len() == 1 {
        "("@ + joined(shape) + ",)"@
    } else {
        "("@ + joined(shape) + ")"@
    }
}

/// The header dict of a row-major `<f4` array.
pub open spec fn header_dict(shape: Seq<usize>) -> Seq<char> {
    "{'descr': '<f4', 'fortran_order': False, 'shape': "@ + shape_text(shape) + ", }"@
}

/// Spaces that bring preamble, dict and newline to a multiple of 64 bytes.
pub open spec fn padding(dict_len: nat) -> nat {
    ((64 - (11 + dict_len) % 64) % 64) as nat
}

pub open spec fn spaces(n: nat) -> Seq<u8> {
    Seq::new(n, |i: int| 0x20u8)
}

/// The padded header with its newline.
pub open spec fn header_bytes(shape: Seq<usize>) -> Seq<u8> {
    let dict = vstd::utf8::encode_utf8(header_dict(shape));
    dict + spaces(padding(dict.len())) + seq![0x0Au8]
}

/// The little-endian bytes of binary32 values.
pub open spec fn data_bytes(data: Seq<u32>) -> Seq<u8>
    decreases data.len(),
{
    if data.len() == 0 {
        seq![]
    } else {
        data_bytes(data.drop_last()) + bytes::le_bytes(data.last() as nat, 4)
    }
}

/// A version 1.0 `.npy` buffer. The header length is written modulo `2^16`.
pub open spec fn npy_bytes(shape: Seq<usize>, data: Seq<u32>) -> Seq<u8> {
    magic() + seq![1u8, 0u8] + bytes::le_bytes(header_bytes(shape).len(), 2) + header_bytes(shape)
        + data_bytes(data)
}

fn push_joined(out: &mut String, shape: &[usize])
    ensures
        final(out)@ == old(out)@ + joined(shape@),
{
    let ghost start = out@;
    let mut i: usize = 0;
    assert(shape@.take(0) =~= seq![]);
    assert(start + joined(shape@.take(0)) =~= start);
    while i < shape.len()
        invariant
            i <= shape@.len(),
            out@ == start + joined(shape@.take(i as int)),
        decreases shape@.len() - i,
    {
        if i > 0 {
            out.append(", ");
        }
        text::push_decimal(out, shape[i] as u64);
        proof {
            let t = shape@.take(i + 1);
            assert(t.drop_last() =~= shape@.take(i as int));
            assert(t.last() == shape@[i as int]);
            assert(out@ =~= start + joined(t));
        }
        i = i + 1;
    }
    assert(shape@.take(shape@.len() as int) =~= shape@);
}

/// Only the low six bits of a length decide its padding.
proof fn lemma_padding_low_bits(n: nat)
    ensures
        padding(n) == padding(n % 64),
{
    assert((11 + n) % 64 == (11 + n % 64) % 64) by (nonlinear_arith);
}

/// Builds a version 1.0 `.npy` buffer (row-major, descr `<f4`).
pub fn write_npy_bytes(shape: &[usize], data: &[u32]) -> (r: Vec<u8>)
    ensures
        r@ == npy_bytes(shape@, data@),
{
    let mut dict = "{'descr': '<f4', 'fortran_order': False, 'shape': ".to_owned();
    dict.append("(");
    push_joined(&mut dict, shape);
    if shape.len() == 1 {
        dict.append(",)");
    } else {
        dict.append(")");
    }
    dict.append(", }");
    proof {
        let lead = "{'descr': '<f4', 'fortran_order': False, 'shape': "@;
        assert(dict@ =~= header_dict(shape@));
        lemma_padding_low_bits(vstd::utf8::encode_utf8(dict@).len());
    }
    let mut header: Vec<u8> = Vec::new();
    header.extend_from_slice(dict.as_str().as_bytes());
    let ghost text = header@;
    assert(text =~= vstd::utf8::encode_utf8(header_dict(shape@)));
    let pad: usize = (64 - (11 + header.len() % 64) % 64) % 64;
    let mut i: usize = 0;
    assert(header@ =~= text + spaces(0));
    while i < pad
        invariant
            i <= pad,
            header@ == text + spaces(i as nat),
        decreases pad - i,
    {
        header.push(0x20);
        i = i + 1;
        assert(header@ =~= text + spaces(i as nat));
    }
    header.push(0x0A);
    assert(header@ =~= header_bytes(shape@));
    let mut out: Vec<u8> = Vec::new();
    let lead: [u8; 8] = [0x93, 0x4E, 0x55, 0x4D, 0x50, 0x59, 1, 0];
    out.extend_from_slice(lead.as_slice());
    assert(out@ =~= magic() + seq![1u8, 0u8]);
    bytes::push_le(&mut out, header.len() as u64, 2);
    out.extend_from_slice(header.as_slice());
    let ghost front = out@;
    let mut j: usize = 0;
    assert(data@.take(0) =~= seq![]);
    assert(front + data_bytes(data@.take(0)) =~= front);
    while j < data.len()
        invariant
            j <= data@.len(),
            out@ == front + data_bytes(data@.take(j as int)),
        decreases data@.len() - j,
    {
        bytes::push_le(&mut out, data[j] as u64, 4);
        proof {
            let t = data@.take(j + 1);
            assert(t.drop_last() =~= data@.take(j as int));
            assert(out@ =~= front + data_bytes(t));
        }
        j = j + 1;
    }
    assert(data@.take(data@.len() as int) =~= data@);
    out
}

} // verus!
