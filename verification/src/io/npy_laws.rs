//! What writing a `.npy` buffer and reading it back gives.
use crate::bytes;
use crate::io::error::IoErrorView;
use crate::io::npy;
use crate::io::npy::{Converter, Kind, RawArrayView};
use crate::text;
use vstd::arithmetic::power2::*;
use vstd::prelude::*;
use vstd::utf8::*;

verus! {

/// The part of the header dict before the shape.
pub open spec fn lead() -> Seq<char> {
    "{'descr': '<f4', 'fortran_order': False, 'shape': "@
}

/// `n` blanks and a line feed.
pub open spec fn blanks(n: nat) -> Seq<char> {
    Seq::new(n, |i: int| ' ').push('\n')
}

pub proof fn lemma_decimal(n: nat)
    ensures
        text::decimal(n).len() > 0,
        text::all_digits(text::decimal(n)),
        text::digits_value(text::decimal(n)) == n,
    decreases n,
{
    let d = text::decimal(n);
    if n < 10 {
        assert(d.drop_last() =~= seq![]);
        assert(text::digits_value(d.drop_last()) == 0);
    } else {
        lemma_decimal(n / 10);
        assert(d.drop_last() =~= text::decimal(n / 10));
        assert forall|i: int| 0 <= i < d.len() implies text::is_digit(#[trigger] d[i]) by {
            if i < d.len() - 1 {
                assert(text::is_digit(text::decimal(n / 10)[i]));
            }
        }
    }
}

/// A decimal numeral reads back as its number.
pub proof fn lemma_number_of_decimal(n: usize)
    ensures
        text::number(text::decimal(n as nat)) == Some(n),
{
    lemma_decimal(n as nat);
    let d = text::decimal(n as nat);
    assert(text::is_digit(d[0]));
}

/// Digits are not trimmed.
proof fn lemma_trim_digits(s: Seq<char>)
    requires
        s.len() > 0,
        text::all_digits(s),
    ensures
        text::trim(s) == s,
{
    assert(text::is_digit(s[0]));
    assert(text::is_digit(s[s.len() - 1]));
}

/// A character that occurs at `at` and not before is found there.
proof fn lemma_position(s: Seq<char>, c: char, at: int)
    requires
        0 <= at < s.len(),
        s[at] == c,
        forall|j: int| 0 <= j < at ==> s[j] != c,
    ensures
        text::position(s, c) == Some(at),
{
    assert(s.subrange(at, at + 1) =~= seq![c]);
    assert forall|j: int| 0 <= j < at implies !text::occurs_at(s, seq![c], j) by {
        if text::occurs_at(s, seq![c], j) {
            assert(s.subrange(j, j + 1)[0] == s[j]);
        }
    }
    text::lemma_find_from(s, seq![c], 0, at);
}

/// A character that does not occur is not found.
proof fn lemma_no_position(s: Seq<char>, c: char, from: int)
    requires
        0 <= from,
        forall|j: int| 0 <= j < s.len() ==> s[j] != c,
    ensures
        text::find_from(s, seq![c], from) is None,
    decreases s.len() - from,
{
    if from + 1 <= s.len() {
        assert(s.subrange(from, from + 1)[0] == s[from]);
        lemma_no_position(s, c, from + 1);
    }
}

/// Dimensions joined from the front.
proof fn lemma_joined_front(shape: Seq<usize>)
    requires
        shape.len() >= 2,
    ensures
        npy::joined(shape) == text::decimal(shape[0] as nat) + ", "@ + npy::joined(shape.skip(1)),
    decreases shape.len(),
{
    let rest = shape.skip(1);
    let first = text::decimal(shape[0] as nat);
    let last = text::decimal(shape.last() as nat);
    if shape.len() == 2 {
        assert(shape.drop_last() =~= seq![shape[0]]);
        assert(rest =~= seq![shape[1]]);
        assert(npy::joined(shape.drop_last()) == first);
        assert(npy::joined(rest) == last);
    } else {
        lemma_joined_front(shape.drop_last());
        assert(shape.drop_last().skip(1) =~= rest.drop_last());
        let mid = npy::joined(rest.drop_last());
        assert(rest.last() == shape.last());
        assert(npy::joined(shape) == (first + ", "@ + mid) + ", "@ + last);
        assert(npy::joined(rest) == mid + ", "@ + last);
        assert((first + ", "@ + mid) + ", "@ + last =~= first + ", "@ + (mid + ", "@ + last));
    }
}

/// `gap` is nothing or one blank.
spec fn is_gap(gap: Seq<char>) -> bool {
    gap.len() == 0 || gap == seq![' ']
}

proof fn lemma_trim_gap(gap: Seq<char>, d: Seq<char>)
    requires
        is_gap(gap),
        d.len() > 0,
        text::all_digits(d),
    ensures
        text::trim(gap + d) == d,
{
    if gap.len() == 0 {
        assert(gap + d =~= d);
    } else {
        assert((gap + d).skip(1) =~= d);
        assert(text::is_digit(d[0]));
        assert(text::trim_start(d) == d);
        assert(text::trim_start(gap + d) == text::trim_start(d));
    }
    lemma_trim_digits(d);
}

/// Joined dimensions read back as the shape.
proof fn lemma_dims_joined(gap: Seq<char>, shape: Seq<usize>)
    requires
        is_gap(gap),
        shape.len() > 0,
    ensures
        npy::dims(gap + npy::joined(shape)) == Some(shape),
    decreases shape.len(),
{
    let d = text::decimal(shape[0] as nat);
    lemma_decimal(shape[0] as nat);
    lemma_number_of_decimal(shape[0]);
    lemma_trim_gap(gap, d);
    let s = gap + npy::joined(shape);
    let at = (gap.len() + d.len()) as int;
    if shape.len() == 1 {
        assert forall|j: int| 0 <= j < s.len() implies s[j] != ',' by {
            if j >= gap.len() {
                assert(text::is_digit(d[j - gap.len()]));
            }
        }
        lemma_no_position(s, ',', 0);
        assert(seq![shape[0]] =~= shape);
    } else {
        reveal_strlit(", ");
        lemma_joined_front(shape);
        let more = npy::joined(shape.skip(1));
        assert(s[at] == ',');
        assert forall|j: int| 0 <= j < at implies s[j] != ',' by {
            if j >= gap.len() {
                assert(text::is_digit(d[j - gap.len()]));
                assert(s[j] == d[j - gap.len()]);
            }
        }
        lemma_position(s, ',', at);
        assert(s.take(at) =~= gap + d);
        assert(s.skip(at + 1) =~= seq![' '] + more);
        lemma_dims_joined(seq![' '], shape.skip(1));
        assert(seq![shape[0]] + shape.skip(1) =~= shape);
    }
}

/// No bracket occurs in joined dimensions, only ASCII characters do.
proof fn lemma_joined_plain(shape: Seq<usize>)
    ensures
        forall|i: int|
            0 <= i < npy::joined(shape).len() ==> {
                let c = #[trigger] npy::joined(shape)[i];
                text::is_digit(c) || c == ',' || c == ' '
            },
    decreases shape.len(),
{
    if shape.len() == 1 {
        lemma_decimal(shape[0] as nat);
        let d = text::decimal(shape[0] as nat);
        assert forall|i: int| 0 <= i < npy::joined(shape).len() implies ({
            let c = #[trigger] npy::joined(shape)[i];
            text::is_digit(c) || c == ',' || c == ' '
        }) by {
            assert(text::is_digit(d[i]));
        }
    } else if shape.len() > 1 {
        reveal_strlit(", ");
        lemma_joined_plain(shape.drop_last());
        lemma_decimal(shape.last() as nat);
        let a = npy::joined(shape.drop_last());
        let d = text::decimal(shape.last() as nat);
        assert forall|i: int| 0 <= i < npy::joined(shape).len() implies ({
            let c = #[trigger] npy::joined(shape)[i];
            text::is_digit(c) || c == ',' || c == ' '
        }) by {
            if i < a.len() {
                assert(npy::joined(shape)[i] == a[i]);
            } else if i >= a.len() + 2 {
                assert(npy::joined(shape)[i] == d[i - a.len() - 2]);
                assert(text::is_digit(d[i - a.len() - 2]));
            }
        }
    }
}

/// What stands between the parentheses.
spec fn inner(shape: Seq<usize>) -> Seq<char> {
    if shape.len() == 1 {
        npy::joined(shape).push(',')
    } else {
        npy::joined(shape)
    }
}

proof fn lemma_shape_text(shape: Seq<usize>)
    ensures
        npy::shape_text(shape) == seq!['('] + inner(shape) + seq![')'],
        forall|i: int|
            0 <= i < inner(shape).len() ==> {
                let c = #[trigger] inner(shape)[i];
                text::is_digit(c) || c == ',' || c == ' '
            },
{
    reveal_strlit("(");
    reveal_strlit(")");
    reveal_strlit(",)");
    lemma_joined_plain(shape);
    assert forall|i: int| 0 <= i < inner(shape).len() implies ({
        let c = #[trigger] inner(shape)[i];
        text::is_digit(c) || c == ',' || c == ' '
    }) by {
        if i < npy::joined(shape).len() {
            assert(inner(shape)[i] == npy::joined(shape)[i]);
        }
    }
    assert(npy::shape_text(shape) =~= seq!['('] + inner(shape) + seq![')']);
}

/// A shape reads back from its tuple notation.
pub proof fn lemma_shape_round_trip(shape: Seq<usize>)
    ensures
        npy::shape_value(npy::shape_text(shape)) == Some(shape),
{
    lemma_shape_text(shape);
    let t = npy::shape_text(shape);
    assert(text::trim(t) == t);
    assert(t.subrange(1, t.len() - 1) =~= inner(shape));
    if shape.len() == 0 {
        lemma_no_position(inner(shape), ',', 0);
        assert(shape =~= seq![]);
    } else if shape.len() == 1 {
        let d = text::decimal(shape[0] as nat);
        lemma_decimal(shape[0] as nat);
        lemma_number_of_decimal(shape[0]);
        lemma_trim_digits(d);
        let s = inner(shape);
        assert forall|j: int| 0 <= j < d.len() implies s[j] != ',' by {
            assert(text::is_digit(d[j]));
            assert(s[j] == d[j]);
        }
        lemma_position(s, ',', d.len() as int);
        assert(s.take(d.len() as int) =~= d);
        assert(s.skip(d.len() as int + 1) =~= seq![]);
        lemma_no_position(seq![], ',', 0);
        assert(npy::dims(seq![]) == Some(Seq::<usize>::empty()));
        assert(seq![shape[0]] + Seq::<usize>::empty() =~= shape);
    } else {
        let none = Seq::<char>::empty();
        assert(none + npy::joined(shape) =~= inner(shape));
        lemma_dims_joined(none, shape);
    }
}

/// Inside brackets, characters other than brackets do not end a bare value.
proof fn lemma_bare_end_inside(v: Seq<char>, from: int, to: int)
    requires
        0 <= from <= to < v.len(),
        forall|i: int|
            from <= i < to ==> {
                let c = #[trigger] v[i];
                text::is_digit(c) || c == ',' || c == ' '
            },
    ensures
        npy::bare_end(v, from, 1) == npy::bare_end(v, to, 1),
    decreases to - from,
{
    if from < to {
        assert(text::is_digit(v[from]) || v[from] == ',' || v[from] == ' ');
        lemma_bare_end_inside(v, from + 1, to);
    }
}

/// Each quote of the leading text that opens another key stands before a
/// character other than the first one of `key`.
proof fn lemma_find_key(t: Seq<char>, rest: Seq<char>, key: Seq<char>, at: int)
    requires
        t == lead() + rest,
        key.len() > 0,
        (at == 1 && key == "descr"@) || (at == 17 && key == "fortran_order"@) || (at == 41 && key
            == "shape"@),
    ensures
        npy::key_position(t, key) == Some(at),
{
    reveal_strlit("{'descr': '<f4', 'fortran_order': False, 'shape': ");
    reveal_strlit("descr");
    reveal_strlit("fortran_order");
    reveal_strlit("shape");
    let needle = seq!['\''] + key + seq!['\''];
    assert(t.subrange(at, at + needle.len()) =~= needle);
    assert forall|j: int| 0 <= j < at implies !text::occurs_at(t, needle, j) by {
        if text::occurs_at(t, needle, j) {
            let part = t.subrange(j, j + needle.len());
            assert(part[0] == t[j] && part[1] == t[j + 1]);
            assert(needle[0] == '\'' && needle[1] == key[0]);
            assert(t[j] == lead()[j] && t[j + 1] == lead()[j + 1]);
        }
    }
    text::lemma_find_from(t, needle, 0, at);
}

/// The header dict yields the fields that it was made of.
proof fn lemma_header_fields(shape: Seq<usize>, n: nat)
    ensures
        npy::header_fields(npy::header_dict(shape) + blanks(n)) == Some(("<f4"@, false, shape)),
{
    reveal_strlit("{'descr': '<f4', 'fortran_order': False, 'shape': ");
    reveal_strlit("descr");
    reveal_strlit("fortran_order");
    reveal_strlit("shape");
    reveal_strlit("<f4");
    reveal_strlit("True");
    reveal_strlit("False");
    reveal_strlit(", }");
    let s = npy::shape_text(shape);
    let rest = s + (", }"@ + blanks(n));
    let t = npy::header_dict(shape) + blanks(n);
    assert(t =~= lead() + rest);
    assert(lead().len() == 50);
    lemma_shape_text(shape);
    // descr
    lemma_find_key(t, rest, "descr"@, 1);
    lemma_position(t.skip(8), ':', 0);
    assert(t.skip(8).skip(1) =~= t.skip(9));
    assert(t.skip(9).skip(1) =~= t.skip(10));
    assert(text::trim_start(t.skip(10)) == t.skip(10));
    assert(text::trim_start(t.skip(9)) == t.skip(10));
    let v = t.skip(10);
    lemma_position(v.skip(1), '\'', 3);
    assert(v.skip(1).take(3) =~= "<f4"@);
    // fortran_order
    lemma_find_key(t, rest, "fortran_order"@, 17);
    lemma_position(t.skip(32), ':', 0);
    assert(t.skip(32).skip(1) =~= t.skip(33));
    assert(t.skip(33).skip(1) =~= t.skip(34));
    assert(text::trim_start(t.skip(34)) == t.skip(34));
    assert(text::trim_start(t.skip(33)) == t.skip(34));
    let f = t.skip(34);
    assert(npy::bare_end(f, 0, 0) == Some(5int)) by {
        reveal_with_fuel(npy::bare_end, 7);
    }
    assert(f.take(5) =~= "False"@);
    assert(text::trim("False"@) == "False"@);
    // shape
    lemma_find_key(t, rest, "shape"@, 41);
    lemma_position(t.skip(48), ':', 0);
    assert(t.skip(48).skip(1) =~= t.skip(49));
    assert(t.skip(49).skip(1) =~= t.skip(50));
    assert(t.skip(50) =~= rest);
    assert(rest[0] == '(');
    assert(text::trim_start(rest) == rest);
    assert(text::trim_start(t.skip(49)) == rest);
    let end = s.len() as int;
    assert forall|i: int| 1 <= i < end - 1 implies ({
        let c = #[trigger] rest[i];
        text::is_digit(c) || c == ',' || c == ' '
    }) by {
        assert(rest[i] == inner(shape)[i - 1]);
    }
    lemma_bare_end_inside(rest, 1, end - 1);
    assert(rest[end - 1] == ')');
    assert(rest[end] == ',');
    assert(npy::bare_end(rest, 0, 0) == npy::bare_end(rest, 1, 1));
    assert(npy::bare_end(rest, end - 1, 1) == npy::bare_end(rest, end, 0));
    assert(npy::bare_end(rest, end, 0) == Some(end));
    assert(rest.take(end) =~= s);
    assert(text::trim(s) == s);
    lemma_shape_round_trip(shape);
    assert("True"@.len() != "False"@.len());
}

/// The header is ASCII text.
proof fn lemma_header_text(shape: Seq<usize>)
    ensures
        is_ascii_chars(npy::header_dict(shape)),
        npy::header_bytes(shape) == encode_utf8(
            npy::header_dict(shape) + blanks(
                npy::padding(encode_utf8(npy::header_dict(shape)).len()),
            ),
        ),
{
    reveal_strlit("{'descr': '<f4', 'fortran_order': False, 'shape': ");
    reveal_strlit(", }");
    lemma_shape_text(shape);
    let s = npy::shape_text(shape);
    assert(is_ascii_chars(s)) by {
        assert forall|i| 0 <= i < s.len() implies '\0' <= #[trigger] s[i] <= '\u{7f}' by {
            if 0 < i < s.len() - 1 {
                assert(s[i] == inner(shape)[i - 1]);
            }
        }
    }
    let d = npy::header_dict(shape);
    assert(is_ascii_chars(d)) by {
        assert forall|i| 0 <= i < d.len() implies '\0' <= #[trigger] d[i] <= '\u{7f}' by {
            let l = lead().len();
            if i < l {
                assert(d[i] == lead()[i]);
            } else if i < l + s.len() {
                assert(d[i] == s[i - l]);
            } else {
                assert(d[i] == ", }"@[i - l - s.len()]);
            }
        }
    }
    is_ascii_chars_encode_utf8(d);
    let n = npy::padding(encode_utf8(d).len());
    let t = d + blanks(n);
    assert(is_ascii_chars(t)) by {
        assert forall|i| 0 <= i < t.len() implies '\0' <= #[trigger] t[i] <= '\u{7f}' by {
            if i < d.len() {
                assert(t[i] == d[i]);
            } else {
                assert(t[i] == blanks(n)[i - d.len()]);
            }
        }
    }
    is_ascii_chars_encode_utf8(t);
    let b = npy::header_bytes(shape);
    assert forall|i: int| 0 <= i < b.len() implies b[i] == encode_utf8(t)[i] by {
        if i < d.len() {
            assert(t[i] == d[i]);
            assert(b[i] == encode_utf8(d)[i]);
        } else {
            assert(t[i] == blanks(n)[i - d.len()]);
        }
    }
    assert(b =~= encode_utf8(t));
}

/// Preamble and header together fill a multiple of 64 bytes.
pub proof fn lemma_header_aligned(shape: Seq<usize>)
    ensures
        (10 + npy::header_bytes(shape).len()) % 64 == 0,
{
    let n = encode_utf8(npy::header_dict(shape)).len();
    let p = npy::padding(n);
    assert(npy::header_bytes(shape).len() == n + p + 1);
    assert((11 + n + p) % 64 == 0);
}

proof fn lemma_data_bytes(data: Seq<u32>)
    ensures
        npy::data_bytes(data).len() == 4 * data.len(),
        forall|i: int|
            0 <= i < data.len() ==> npy::data_bytes(data).subrange(4 * i, 4 * i + 4)
                == bytes::le_bytes(#[trigger] data[i] as nat, 4),
    decreases data.len(),
{
    if data.len() > 0 {
        let n = data.len() - 1;
        let front = npy::data_bytes(data.drop_last());
        let tail = bytes::le_bytes(data.last() as nat, 4);
        lemma_data_bytes(data.drop_last());
        bytes::lemma_le_bytes_len(data.last() as nat, 4);
        let all = npy::data_bytes(data);
        assert forall|i: int| 0 <= i < data.len() implies all.subrange(4 * i, 4 * i + 4)
            == bytes::le_bytes(#[trigger] data[i] as nat, 4) by {
            if i < n {
                assert(data.drop_last()[i] == data[i]);
                assert(all.subrange(4 * i, 4 * i + 4) =~= front.subrange(4 * i, 4 * i + 4));
            } else {
                assert(all.subrange(4 * i, 4 * i + 4) =~= tail);
            }
        }
    }
}

/// What a written buffer holds is read as single-precision data of its shape.
proof fn lemma_written_payload(shape: Seq<usize>, data: Seq<u32>)
    requires
        npy::header_bytes(shape).len() <= 0xFFFF,
    ensures
        npy::npy_array(npy::npy_bytes(shape, data)) == npy::payload(
            npy::data_bytes(data),
            Converter { kind: Kind::Float, size: 4, little: true },
            false,
            shape,
        ),
{
    let h = npy::header_bytes(shape);
    let len = bytes::le_bytes(h.len(), 2);
    let b = npy::npy_bytes(shape, data);
    lemma2_to64();
    lemma2_to64_rest();
    bytes::lemma_le_round_trip(h.len(), 2);
    assert(b.take(6) =~= npy::magic());
    assert(b[6] == 1 && b[7] == 0);
    assert(b.subrange(8, 10) =~= len);
    let end = 10 + h.len();
    assert(npy::header_span(b) == Ok::<(int, int), IoErrorView>((10, end as int)));
    assert(b.subrange(10, end as int) =~= h);
    assert(b.skip(end as int) =~= npy::data_bytes(data));
    lemma_header_text(shape);
    let n = npy::padding(encode_utf8(npy::header_dict(shape)).len());
    let t = npy::header_dict(shape) + blanks(n);
    encode_utf8_valid_utf8(t);
    encode_utf8_decode_utf8(t);
    lemma_header_fields(shape, n);
    reveal_strlit("<f4");
    assert(npy::header_fields(t) == Some(("<f4"@, false, shape)));
    assert(decode_utf8(b.subrange(10, end as int)) == t);
}

/// Reading a buffer written from `shape` and `data` gives both back, bit for
/// bit, where the shape fits the data and the header fits its length field.
pub proof fn lemma_npy_round_trip(shape: Seq<usize>, data: Seq<u32>)
    requires
        npy::checked_product(shape) == Some(data.len()),
        4 * data.len() <= usize::MAX,
        npy::header_bytes(shape).len() <= 0xFFFF,
    ensures
        npy::npy_array(npy::npy_bytes(shape, data)) == Ok::<RawArrayView, IoErrorView>(
            RawArrayView { shape, data },
        ),
{
    lemma_written_payload(shape, data);
    lemma_data_bytes(data);
    lemma2_to64();
    let c = Converter { kind: Kind::Float, size: 4, little: true };
    let d = npy::data_bytes(data);
    assert forall|i: int| 0 <= i < data.len() implies c.values(d, data.len())[i] == data[i] by {
        assert(d.subrange(i * 4, i * 4 + 4) == bytes::le_bytes(data[i] as nat, 4));
        bytes::lemma_le_round_trip(data[i] as nat, 4);
    }
    assert(c.values(d, data.len()) =~= data);
}

/// A buffer written from a shape that does not fit the data is malformed.
pub proof fn lemma_npy_wrong_shape(shape: Seq<usize>, data: Seq<u32>)
    requires
        npy::product(shape) != data.len(),
        npy::header_bytes(shape).len() <= 0xFFFF,
    ensures
        npy::npy_array(npy::npy_bytes(shape, data)) matches Err(IoErrorView::Malformed(_)),
{
    lemma_written_payload(shape, data);
    lemma_data_bytes(data);
    npy::lemma_checked_product(shape);
}

} // verus!
