//! A JSON document, written down plainly, is read back.
use crate::double;
use crate::ieee;
use crate::io::header_laws;
use crate::io::header_laws::{numeral, stands};
use crate::scan;
use crate::tokenizer::json;
use crate::tokenizer::json::{Fault, ValueView};
use crate::tokenizer::laws;
use crate::widths;
use vstd::arithmetic::power2::*;
use vstd::prelude::*;
use vstd::utf8::*;

verus! {

/// What a document is to say.
pub enum Doc {
    Null,
    Bool(bool),
    Number(nat),
    Text(Seq<char>),
    Array(Seq<Doc>),
    Object(Seq<Seq<char>>, Seq<Doc>),
}

/// The binary64 number that stands for an integer.
pub open spec fn float_of(n: nat) -> u64 {
    double::nearest64(n * pow2(1074), 1) as u64
}

/// A text in double quotes.
pub open spec fn text_bytes(s: Seq<char>) -> Seq<u8> {
    seq![0x22u8] + (encode_utf8(s) + seq![0x22u8])
}

/// Whether a text can stand between double quotes as it is.
pub open spec fn is_plain(s: Seq<char>) -> bool {
    forall|i: int| 0 <= i < s.len() ==> #[trigger] s[i] != '"' && s[i] != '\\'
}

/// The bytes of a value, without blanks.
pub open spec fn written(d: Doc) -> Seq<u8>
    decreases d, 0nat,
{
    match d {
        Doc::Null => seq![0x6Eu8, 0x75, 0x6C, 0x6C],
        Doc::Bool(x) => if x {
            seq![0x74u8, 0x72, 0x75, 0x65]
        } else {
            seq![0x66u8, 0x61, 0x6C, 0x73, 0x65]
        },
        Doc::Number(n) => numeral(n),
        Doc::Text(s) => text_bytes(s),
        Doc::Array(s) => if s.len() == 0 {
            seq![0x5Bu8] + seq![0x5Du8]
        } else {
            seq![0x5Bu8] + items(s, 0)
        },
        Doc::Object(k, s) => if s.len() == 0 {
            seq![0x7Bu8] + seq![0x7Du8]
        } else {
            seq![0x7Bu8] + members(k, s, 0)
        },
    }
}

/// The elements from number `i` on, with commas between them, and a closing
/// bracket.
pub open spec fn items(s: Seq<Doc>, i: int) -> Seq<u8>
    decreases s, s.len() - i,
{
    if 0 <= i < s.len() {
        if i + 1 < s.len() {
            written(s[i]) + (seq![0x2Cu8] + items(s, i + 1))
        } else {
            written(s[i]) + seq![0x5Du8]
        }
    } else {
        seq![]
    }
}

/// The members from number `i` on, with commas between them, and a closing
/// brace.
pub open spec fn members(k: Seq<Seq<char>>, s: Seq<Doc>, i: int) -> Seq<u8>
    decreases s, s.len() - i,
{
    if 0 <= i < s.len() {
        if i + 1 < s.len() {
            text_bytes(k[i]) + (seq![0x3Au8] + (written(s[i]) + (seq![0x2Cu8] + members(
                k,
                s,
                i + 1,
            ))))
        } else {
            text_bytes(k[i]) + (seq![0x3Au8] + (written(s[i]) + seq![0x7Du8]))
        }
    } else {
        seq![]
    }
}

/// The value that a document is to be read as.
pub open spec fn meant(d: Doc) -> ValueView
    decreases d, 0nat,
{
    match d {
        Doc::Null => ValueView::Null,
        Doc::Bool(x) => ValueView::Bool(x),
        Doc::Number(n) => ValueView::Number(float_of(n)),
        Doc::Text(s) => ValueView::String(s),
        Doc::Array(s) => ValueView::Array(meant_items(s, s.len() as int)),
        Doc::Object(k, s) => ValueView::Object(meant_members(k, s, s.len() as int)),
    }
}

/// The first `n` elements.
pub open spec fn meant_items(s: Seq<Doc>, n: int) -> Seq<ValueView>
    decreases s, n,
{
    if 0 < n <= s.len() {
        meant_items(s, n - 1).push(meant(s[n - 1]))
    } else {
        seq![]
    }
}

/// The first `n` members.
pub open spec fn meant_members(k: Seq<Seq<char>>, s: Seq<Doc>, n: int) -> Seq<
    (Seq<char>, ValueView),
>
    decreases s, n,
{
    if 0 < n <= s.len() {
        meant_members(k, s, n - 1).push((k[n - 1], meant(s[n - 1])))
    } else {
        seq![]
    }
}

/// Whether a document can be written in this way: its texts are plain, and each
/// object has a key for each value and none twice.
pub open spec fn is_writable(d: Doc) -> bool
    decreases d, 0nat,
{
    match d {
        Doc::Text(s) => is_plain(s),
        Doc::Array(s) => all_writable(s, s.len() as int),
        Doc::Object(k, s) => {
            &&& k.len() == s.len()
            &&& forall|i: int| 0 <= i < k.len() ==> is_plain(#[trigger] k[i])
            &&& forall|i: int, j: int| 0 <= i < j < k.len() ==> #[trigger] k[i] != #[trigger] k[j]
            &&& all_writable(s, s.len() as int)
        },
        _ => true,
    }
}

/// The same for the first `n` of several documents.
pub open spec fn all_writable(s: Seq<Doc>, n: int) -> bool
    decreases s, n,
{
    0 < n <= s.len() ==> is_writable(s[n - 1]) && all_writable(s, n - 1)
}

proof fn lemma_all_writable(s: Seq<Doc>, n: int, i: int)
    requires
        all_writable(s, n),
        0 <= i < n <= s.len(),
    ensures
        is_writable(s[i]),
    decreases n,
{
    if i < n - 1 {
        lemma_all_writable(s, n - 1, i);
    }
}

/// One character of a text.
proof fn lemma_char(b: Seq<u8>, pos: int, c: char)
    requires
        c != '"',
        c != '\\',
        stands(b, pos, encode_utf8(seq![c])),
    ensures
        pos < b.len(),
        b[pos] != 0x22,
        encode_utf8(seq![c]).len() > 0,
        json::string_char(b, pos) == Ok::<(char, int), Fault>(
            (c, pos + encode_utf8(seq![c]).len()),
        ),
{
    let one = seq![c];
    let e = encode_utf8(one);
    encode_utf8_first_scalar(one);
    assert(one.drop_first() =~= seq![]);
    assert(encode_utf8(one.drop_first()) =~= seq![]);
    assert(e =~= encode_scalar(c as u32));
    let t = b.skip(pos);
    let n = length_of_first_scalar(e);
    assert(e.len() == n);
    assert forall|i: int| 0 <= i < n implies #[trigger] t[i] == e[i] by {
        assert(b[pos + i] == e[i]);
    }
    assert(t[0] == e[0]);
    assert(b[pos] == e[0]);
    assert(0x22u8 & 0x7F == 0x22) by (bit_vector);
    assert(0x5Cu8 & 0x7F == 0x5C) by (bit_vector);
    char_is_scalar(c);
    char_u32_cast(c, c as u32);
    if n >= 2 {
        assert(t[1] == e[1]);
    }
    if n >= 3 {
        assert(t[2] == e[2]);
    }
    if n >= 4 {
        assert(t[3] == e[3]);
    }
    assert(valid_first_scalar(t));
    assert(decode_first_scalar(t) == c as u32);
}

proof fn lemma_text_rest(b: Seq<u8>, pos: int, s: Seq<char>)
    requires
        is_plain(s),
        stands(b, pos, encode_utf8(s) + seq![0x22u8]),
    ensures
        json::string_rest(b, pos) == Ok::<(Seq<char>, int), Fault>(
            (s, pos + encode_utf8(s).len() + 1),
        ),
    decreases s.len(),
{
    let q = seq![0x22u8];
    if s.len() == 0 {
        assert(encode_utf8(s) + q =~= q);
        header_laws::lemma_stands_one(b, pos, 0x22);
        assert(s =~= seq![]);
    } else {
        let one = seq![s[0]];
        let t = s.skip(1);
        assert(one + t =~= s);
        laws::lemma_encode_concat(one, t);
        assert(encode_utf8(s) + q =~= encode_utf8(one) + (encode_utf8(t) + q));
        header_laws::lemma_stands_both(b, pos, encode_utf8(one), encode_utf8(t) + q);
        assert(s[0] != '"' && s[0] != '\\');
        lemma_char(b, pos, s[0]);
        assert forall|i: int| 0 <= i < t.len() implies #[trigger] t[i] != '"' && t[i] != '\\' by {
            assert(s[i + 1] != '"');
        }
        lemma_text_rest(b, pos + encode_utf8(one).len(), t);
    }
}

proof fn lemma_text(b: Seq<u8>, pos: int, s: Seq<char>)
    requires
        is_plain(s),
        stands(b, pos, text_bytes(s)),
    ensures
        scan::holds(b, pos, 0x22),
        scan::after_blanks(b, pos) == pos,
        json::string_rest(b, pos + 1) == Ok::<(Seq<char>, int), Fault>(
            (s, pos + text_bytes(s).len()),
        ),
{
    header_laws::lemma_stands_both(b, pos, seq![0x22u8], encode_utf8(s) + seq![0x22u8]);
    header_laws::lemma_stands_one(b, pos, 0x22);
    lemma_text_rest(b, pos + 1, s);
}

proof fn lemma_number_end(b: Seq<u8>, pos: int, d: Seq<u8>)
    requires
        stands(b, pos, d),
        forall|i: int| 0 <= i < d.len() ==> 0x30 <= #[trigger] d[i] <= 0x39,
        pos + d.len() < b.len() ==> !json::is_number_byte(b[pos + d.len()]),
    ensures
        json::number_end(b, pos) == pos + d.len(),
    decreases d.len(),
{
    if d.len() > 0 {
        let t = d.skip(1);
        assert(b[pos + 0] == d[0]);
        assert(stands(b, pos + 1, t)) by {
            assert forall|i: int| 0 <= i < t.len() implies b[pos + 1 + i] == #[trigger] t[i] by {
                assert(d[i + 1] == t[i]);
            }
        }
        assert forall|i: int| 0 <= i < t.len() implies 0x30 <= #[trigger] t[i] <= 0x39 by {
            assert(0x30 <= d[i + 1] <= 0x39);
        }
        lemma_number_end(b, pos + 1, t);
    }
}

proof fn lemma_all_digits(d: Seq<u8>, pos: int)
    requires
        forall|i: int| 0 <= i < d.len() ==> 0x30 <= #[trigger] d[i] <= 0x39,
        0 <= pos <= d.len(),
    ensures
        scan::digits_end(d, pos) == d.len(),
    decreases d.len() - pos,
{
    if pos < d.len() {
        assert(0x30 <= d[pos] <= 0x39);
        lemma_all_digits(d, pos + 1);
    }
}

/// The digits of an integer read as that integer.
pub proof fn lemma_integer(n: nat)
    ensures
        json::float_value(numeral(n)) == Some(float_of(n)),
{
    let d = numeral(n);
    header_laws::lemma_numeral_value(n);
    assert(0x30 <= d[0] <= 0x39);
    lemma_all_digits(d, 0);
    assert(d.subrange(0, d.len() as int) + Seq::<u8>::empty() =~= d);
    vstd::arithmetic::power::lemma_pow0(10);
    assert(n * 1 == n);
}

/// An integer of 32 bits survives as an id.
pub proof fn lemma_id(n: nat)
    requires
        n <= u32::MAX,
    ensures
        widths::truncated_u32(float_of(n)) == n,
{
    let h = widths::HALF64 as nat;
    let p = pow2(1074);
    let v = n * p;
    lemma_pow2_pos(1074);
    ieee::lemma_encode_exact(n, 1074, h);
    let e = ieee::encode(v, 1, h);
    if e >= widths::INFINITY64 {
        ieee::lemma_units_ordered(widths::INFINITY64 as nat, e, h);
        ieee::lemma_units_at(h, 2046, h);
        assert(2046 * h + h == widths::INFINITY64);
        lemma_pow2_adds(972, 1074);
        lemma_pow2_pos(972);
        assert(h * pow2(2046) > v) by (nonlinear_arith)
            requires
                pow2(2046) == pow2(972) * p,
                pow2(972) >= 1,
                p >= 1,
                h == 0x10_0000_0000_0000,
                v == n * p,
                n <= 0xFFFF_FFFF,
        ;
    }
    ieee::lemma_div_unique(v, p, n, 0);
    assert(p * n + 0 == v) by (nonlinear_arith)
        requires
            v == n * p,
    ;
}

proof fn lemma_word(b: Seq<u8>, pos: int, w: Seq<u8>, v: ValueView)
    requires
        stands(b, pos, w),
    ensures
        json::literal_at(b, pos, w, v) == Ok::<(ValueView, int), Fault>((v, pos + w.len())),
{
    assert(b.subrange(pos, pos + w.len()) =~= w);
}

/// A value begins with none of the bytes that stand between values.
proof fn lemma_first_byte(d: Doc)
    requires
        is_writable(d),
    ensures
        written(d).len() > 0,
        !scan::is_blank(written(d)[0]),
        written(d)[0] != 0x5D,
{
    if let Doc::Number(n) = d {
        header_laws::lemma_numeral_value(n);
        assert(0x30 <= numeral(n)[0] <= 0x39);
    }
}

/// The value of a hexadecimal digit.
pub open spec fn nibble(c: u8) -> nat {
    if 0x30 <= c <= 0x39 {
        (c - 0x30) as nat
    } else if 0x61 <= c <= 0x66 {
        (c - 0x57) as nat
    } else {
        (c - 0x37) as nat
    }
}

/// Whether a byte is a hexadecimal digit.
pub open spec fn is_nibble(c: u8) -> bool {
    0x30 <= c <= 0x39 || 0x61 <= c <= 0x66 || 0x41 <= c <= 0x46
}

/// Whether four hexadecimal digits stand at `pos`.
pub open spec fn has_hex(b: Seq<u8>, pos: int) -> bool {
    &&& 0 <= pos
    &&& pos + 4 <= b.len()
    &&& is_nibble(b[pos])
    &&& is_nibble(b[pos + 1])
    &&& is_nibble(b[pos + 2])
    &&& is_nibble(b[pos + 3])
}

/// The number that they spell.
pub open spec fn hex_at(b: Seq<u8>, pos: int) -> nat {
    4096 * nibble(b[pos]) + 256 * nibble(b[pos + 1]) + 16 * nibble(b[pos + 2]) + nibble(
        b[pos + 3],
    )
}

proof fn lemma_hex(b: Seq<u8>, pos: int)
    requires
        has_hex(b, pos),
    ensures
        json::hex4_at(b, pos) == Ok::<(nat, int), Fault>((hex_at(b, pos), pos + 4)),
{
    let s = b.subrange(pos, pos + 4);
    assert(s[0] == b[pos] && s[1] == b[pos + 1] && s[2] == b[pos + 2] && s[3] == b[pos + 3]);
    reveal_with_fuel(scan::hex_value, 5);
    let s3 = s.drop_last();
    let s2 = s3.drop_last();
    let s1 = s2.drop_last();
    assert(s1.drop_last().len() == 0);
    assert(s1.last() == s[0] && s2.last() == s[1] && s3.last() == s[2]);
    assert(scan::all_hex(s)) by {
        assert forall|i: int| 0 <= i < s.len() implies scan::is_hex(#[trigger] s[i]) by {
            assert(i == 0 || i == 1 || i == 2 || i == 3);
        }
    }
    assert(valid_utf8(s)) by {
        lemma_ascii(s);
    }
}

proof fn lemma_ascii(s: Seq<u8>)
    requires
        forall|i: int| 0 <= i < s.len() ==> #[trigger] s[i] < 0x80,
    ensures
        valid_utf8(s),
    decreases s.len(),
{
    if s.len() > 0 {
        assert(s[0] < 0x80);
        let x = s[0];
        assert(x < 0x80 ==> (x & 0x7F) as u32 == x) by (bit_vector);
        assert(pop_first_scalar(s) =~= s.skip(1));
        assert forall|i: int| 0 <= i < s.skip(1).len() implies #[trigger] s.skip(1)[i] < 0x80 by {
            assert(s[i + 1] < 0x80);
        }
        lemma_ascii(s.skip(1));
    }
}

/// A backslash, `u` and four digits stand for the character of that number; two
/// of them, where the numbers are surrogates, for the one that the pair names.
pub proof fn lemma_escape(b: Seq<u8>, pos: int)
    requires
        scan::holds(b, pos, 0x5C),
        scan::holds(b, pos + 1, 0x75),
        has_hex(b, pos + 2),
    ensures
        ({
            let v = hex_at(b, pos + 2);
            &&& !(0xD800 <= v < 0xE000) ==> json::string_char(b, pos) == Ok::<(char, int), Fault>(
                ((v as u32) as char, pos + 6),
            )
            &&& 0xD800 <= v < 0xDC00 && scan::holds(b, pos + 6, 0x5C) && scan::holds(
                b,
                pos + 7,
                0x75,
            ) && has_hex(b, pos + 8) && 0xDC00 <= hex_at(b, pos + 8) < 0xE000
                ==> json::string_char(b, pos) == Ok::<(char, int), Fault>(
                (
                    ((0x10000 + (v - 0xD800) * 0x400 + (hex_at(b, pos + 8) - 0xDC00)) as u32) as char,
                    pos + 12,
                ),
            )
            &&& 0xDC00 <= v < 0xE000 ==> json::string_char(b, pos) is Err
        }),
{
    lemma_hex(b, pos + 2);
    if has_hex(b, pos + 8) {
        lemma_hex(b, pos + 8);
    }
}

/// A backslash and one more character.
pub proof fn lemma_short_escape(b: Seq<u8>, pos: int)
    requires
        scan::holds(b, pos, 0x5C),
        pos + 1 < b.len(),
        b[pos + 1] != 0x75,
    ensures
        ({
            let c = b[pos + 1] as char;
            let r = json::string_char(b, pos);
            let known = c == '"' || c == '\\' || c == '/' || c == 'b' || c == 'f' || c == 'n' || c
                == 'r' || c == 't';
            &&& r is Ok <==> known
            &&& r matches Ok((x, end)) ==> end == pos + 2 && x == (if c == 'b' {
                '\x08'
            } else if c == 'f' {
                '\x0C'
            } else if c == 'n' {
                '\n'
            } else if c == 'r' {
                '\r'
            } else if c == 't' {
                '\t'
            } else {
                c
            })
        }),
{
}

/// Whether a value that ends at `end` is cut off there.
spec fn is_cut(b: Seq<u8>, end: int) -> bool {
    end < b.len() ==> !json::is_number_byte(b[end])
}

proof fn lemma_value(b: Seq<u8>, pos: int, d: Doc)
    requires
        is_writable(d),
        stands(b, pos, written(d)),
        is_cut(b, pos + written(d).len()),
    ensures
        json::value_at(b, pos) == Ok::<(ValueView, int), Fault>(
            (meant(d), pos + written(d).len()),
        ),
    decreases d, 0nat,
{
    let w = written(d);
    lemma_first_byte(d);
    assert(b[pos + 0] == w[0]);
    assert(scan::after_blanks(b, pos) == pos);
    match d {
        Doc::Null => {
            lemma_word(b, pos, w, ValueView::Null);
        },
        Doc::Bool(x) => {
            lemma_word(b, pos, w, ValueView::Bool(x));
        },
        Doc::Number(n) => {
            header_laws::lemma_numeral_value(n);
            lemma_number_end(b, pos, w);
            assert(0x30 <= w[0] <= 0x39);
            assert(b.subrange(pos, pos + w.len()) =~= w);
            lemma_integer(n);
        },
        Doc::Text(s) => {
            lemma_text(b, pos, s);
        },
        Doc::Array(s) => {
            if s.len() == 0 {
                header_laws::lemma_stands_both(b, pos, seq![0x5Bu8], seq![0x5Du8]);
                header_laws::lemma_stands_one(b, pos, 0x5B);
                header_laws::lemma_stands_one(b, pos + 1, 0x5D);
                assert(meant_items(s, 0) =~= seq![]);
            } else {
                header_laws::lemma_stands_both(b, pos, seq![0x5Bu8], items(s, 0));
                header_laws::lemma_stands_one(b, pos, 0x5B);
                lemma_items(b, pos + 1, s, 0);
                assert(meant_items(s, 0) =~= seq![]);
                lemma_all_writable(s, s.len() as int, 0);
                lemma_first_byte(s[0]);
                lemma_item_first(b, pos + 1, s, 0);
            }
        },
        Doc::Object(k, s) => {
            if s.len() == 0 {
                header_laws::lemma_stands_both(b, pos, seq![0x7Bu8], seq![0x7Du8]);
                header_laws::lemma_stands_one(b, pos, 0x7B);
                header_laws::lemma_stands_one(b, pos + 1, 0x7D);
                assert(meant_members(k, s, 0) =~= seq![]);
            } else {
                header_laws::lemma_stands_both(b, pos, seq![0x7Bu8], members(k, s, 0));
                header_laws::lemma_stands_one(b, pos, 0x7B);
                lemma_members(b, pos + 1, k, s, 0);
                assert(meant_members(k, s, 0) =~= seq![]);
            }
        },
    }
}

proof fn lemma_item_first(b: Seq<u8>, pos: int, s: Seq<Doc>, i: int)
    requires
        all_writable(s, s.len() as int),
        0 <= i < s.len(),
        stands(b, pos, items(s, i)),
    ensures
        scan::after_blanks(b, pos) == pos,
        !scan::holds(b, pos, 0x5D),
{
    lemma_all_writable(s, s.len() as int, i);
    lemma_first_byte(s[i]);
    let rest = if i + 1 < s.len() {
        seq![0x2Cu8] + items(s, i + 1)
    } else {
        seq![0x5Du8]
    };
    header_laws::lemma_stands_both(b, pos, written(s[i]), rest);
    assert(b[pos + 0] == written(s[i])[0]);
}

proof fn lemma_items(b: Seq<u8>, pos: int, s: Seq<Doc>, i: int)
    requires
        all_writable(s, s.len() as int),
        0 <= i < s.len(),
        stands(b, pos, items(s, i)),
    ensures
        json::array_rest(b, pos, meant_items(s, i)) == Ok::<(ValueView, int), Fault>(
            (ValueView::Array(meant_items(s, s.len() as int)), pos + items(s, i).len()),
        ),
    decreases s, s.len() - i,
{
    let w = written(s[i]);
    let q = pos + w.len();
    lemma_all_writable(s, s.len() as int, i);
    lemma_first_byte(s[i]);
    if i + 1 < s.len() {
        header_laws::lemma_stands_both(b, pos, w, seq![0x2Cu8] + items(s, i + 1));
        header_laws::lemma_stands_both(b, q, seq![0x2Cu8], items(s, i + 1));
        header_laws::lemma_stands_one(b, q, 0x2C);
        lemma_value(b, pos, s[i]);
        lemma_item_first(b, q + 1, s, i + 1);
        lemma_items(b, q + 1, s, i + 1);
        assert(meant_items(s, i + 1) == meant_items(s, i).push(meant(s[i])));
    } else {
        header_laws::lemma_stands_both(b, pos, w, seq![0x5Du8]);
        header_laws::lemma_stands_one(b, q, 0x5D);
        lemma_value(b, pos, s[i]);
        assert(meant_items(s, i + 1) == meant_items(s, i).push(meant(s[i])));
    }
}

proof fn lemma_new_key(k: Seq<Seq<char>>, s: Seq<Doc>, n: int, i: int)
    requires
        0 <= n <= i < s.len(),
        k.len() == s.len(),
        forall|x: int, y: int| 0 <= x < y < k.len() ==> #[trigger] k[x] != #[trigger] k[y],
    ensures
        meant_members(k, s, n).len() == n,
        forall|j: int| 0 <= j < n ==> (#[trigger] meant_members(k, s, n)[j]).0 != k[i],
    decreases n,
{
    if n > 0 {
        lemma_new_key(k, s, n - 1, i);
        assert(k[n - 1] != k[i]);
        let m = meant_members(k, s, n);
        let f = meant_members(k, s, n - 1);
        assert forall|j: int| 0 <= j < n implies (#[trigger] m[j]).0 != k[i] by {
            if j < n - 1 {
                assert(m[j] == f[j]);
            }
        }
    }
}

proof fn lemma_member(b: Seq<u8>, pos: int, key: Seq<char>, d: Doc, close: Seq<u8>)
    requires
        is_plain(key),
        is_writable(d),
        close.len() > 0,
        !json::is_number_byte(close[0]),
        stands(b, pos, text_bytes(key) + (seq![0x3Au8] + (written(d) + close))),
    ensures
        ({
            let q = pos + text_bytes(key).len() + 1 + written(d).len();
            &&& scan::after_blanks(b, pos) == pos
            &&& scan::holds(b, pos, 0x22)
            &&& json::member_at(b, pos) == Ok::<((Seq<char>, ValueView), int), Fault>(
                ((key, meant(d)), q),
            )
            &&& stands(b, q, close)
        }),
    decreases d, 1nat,
{
    let t = text_bytes(key);
    let p = pos + t.len();
    let w = written(d);
    header_laws::lemma_stands_both(b, pos, t, seq![0x3Au8] + (w + close));
    header_laws::lemma_stands_both(b, p, seq![0x3Au8], w + close);
    header_laws::lemma_stands_both(b, p + 1, w, close);
    header_laws::lemma_stands_one(b, p, 0x3A);
    lemma_text(b, pos, key);
    assert(b[p + 1 + w.len() + 0] == close[0]);
    lemma_value(b, p + 1, d);
}

proof fn lemma_members(b: Seq<u8>, pos: int, k: Seq<Seq<char>>, s: Seq<Doc>, i: int)
    requires
        k.len() == s.len(),
        forall|x: int| 0 <= x < k.len() ==> is_plain(#[trigger] k[x]),
        forall|x: int, y: int| 0 <= x < y < k.len() ==> #[trigger] k[x] != #[trigger] k[y],
        all_writable(s, s.len() as int),
        0 <= i < s.len(),
        stands(b, pos, members(k, s, i)),
    ensures
        json::object_rest(b, pos, meant_members(k, s, i)) == Ok::<(ValueView, int), Fault>(
            (
                ValueView::Object(meant_members(k, s, s.len() as int)),
                pos + members(k, s, i).len(),
            ),
        ),
    decreases s, s.len() - i,
{
    let q = pos + text_bytes(k[i]).len() + 1 + written(s[i]).len();
    let acc = meant_members(k, s, i);
    lemma_all_writable(s, s.len() as int, i);
    assert(is_plain(k[i]));
    lemma_new_key(k, s, i, i);
    json::lemma_member_index(acc, k[i], acc.len() as int);
    assert(json::put(acc, k[i], meant(s[i])) == meant_members(k, s, i + 1));
    if i + 1 < s.len() {
        let close = seq![0x2Cu8] + members(k, s, i + 1);
        lemma_member(b, pos, k[i], s[i], close);
        header_laws::lemma_stands_both(b, q, seq![0x2Cu8], members(k, s, i + 1));
        header_laws::lemma_stands_one(b, q, 0x2C);
        lemma_members(b, q + 1, k, s, i + 1);
    } else {
        lemma_member(b, pos, k[i], s[i], seq![0x7Du8]);
        header_laws::lemma_stands_one(b, q, 0x7D);
    }
}

/// A document that was written down plainly, however deeply nested and however
/// long, reads as what it says: words, integers, texts, and arrays and objects
/// of these with their elements and members in order.
pub proof fn lemma_document(d: Doc)
    requires
        is_writable(d),
    ensures
        json::document(written(d)) == Ok::<ValueView, Seq<char>>(meant(d)),
{
    let b = written(d);
    assert(stands(b, 0, b));
    lemma_value(b, 0, d);
}

} // verus!
