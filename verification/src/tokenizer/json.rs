//! Minimal owned JSON parser (objects, arrays, strings with `\u` including
//! surrogate pairs, numbers, bool, null). Enough for `tokenizer.json`.
use crate::double;
use crate::scan;
use crate::text;
use crate::widths;
use vstd::hash_map::StringHashMap;
use vstd::prelude::*;
use vstd::string::*;
use vstd::utf8::*;

verus! {

/// An owned JSON value.
#[derive(Debug)]
pub enum Value {
    Null,
    Bool(bool),
    /// Bit pattern of the nearest binary64 value.
    Number(u64),
    String(String),
    Array(Vec<Value>),
    /// Members with distinct keys, in the order in which the keys first occur.
    Object(Vec<(String, Value)>),
}

/// The model of a [`Value`].
#[verifier::ext_equal]
pub enum ValueView {
    Null,
    Bool(bool),
    Number(u64),
    String(Seq<char>),
    Array(Seq<ValueView>),
    Object(Seq<(Seq<char>, ValueView)>),
}

impl Value {
    pub open spec fn model(self) -> ValueView
        decreases self,
    {
        match self {
            Value::Null => ValueView::Null,
            Value::Bool(b) => ValueView::Bool(b),
            Value::Number(n) => ValueView::Number(n),
            Value::String(s) => ValueView::String(s@),
            Value::Array(a) => ValueView::Array(
                Seq::new(
                    a@.len(),
                    |i: int|
                        if 0 <= i < a@.len() {
                            a@[i].model()
                        } else {
                            ValueView::Null
                        },
                ),
            ),
            Value::Object(m) => ValueView::Object(
                Seq::new(
                    m@.len(),
                    |i: int|
                        if 0 <= i < m@.len() {
                            (m@[i].0@, m@[i].1.model())
                        } else {
                            (seq![], ValueView::Null)
                        },
                ),
            ),
        }
    }
}


/// The models of array elements.
pub open spec fn models(a: Seq<Value>) -> Seq<ValueView> {
    Seq::new(a.len(), |i: int| a[i].model())
}

/// The models of object members.
pub open spec fn member_models(m: Seq<(String, Value)>) -> Seq<(Seq<char>, ValueView)> {
    Seq::new(m.len(), |i: int| (m[i].0@, m[i].1.model()))
}

pub proof fn lemma_model_array(a: Vec<Value>)
    ensures
        Value::Array(a).model() == ValueView::Array(models(a@)),
{
    assert(Value::Array(a).model()->Array_0 =~= models(a@));
}

pub proof fn lemma_model_object(m: Vec<(String, Value)>)
    ensures
        Value::Object(m).model() == ValueView::Object(member_models(m@)),
{
    assert(Value::Object(m).model()->Object_0 =~= member_models(m@));
}

/// The position of the first member called `key`.
pub open spec fn member_index(m: Seq<(Seq<char>, ValueView)>, key: Seq<char>) -> Option<int>
    decreases m.len(),
{
    if m.len() == 0 {
        None
    } else {
        match member_index(m.drop_last(), key) {
            Some(i) => Some(i),
            None => if m.last().0 == key {
                Some(m.len() - 1)
            } else {
                None
            },
        }
    }
}

pub proof fn lemma_member_index(m: Seq<(Seq<char>, ValueView)>, key: Seq<char>, at: int)
    requires
        0 <= at <= m.len(),
        forall|j: int| 0 <= j < at ==> (#[trigger] m[j]).0 != key,
        at < m.len() ==> m[at].0 == key,
    ensures
        member_index(m, key) == (if at < m.len() {
            Some(at)
        } else {
            None
        }),
    decreases m.len(),
{
    if m.len() > 0 {
        let front = m.drop_last();
        assert forall|j: int| 0 <= j < front.len() && j < at implies (#[trigger] front[j]).0
            != key by {
            assert(m[j].0 != key);
        }
        if at < m.len() - 1 {
            assert(front[at] == m[at]);
            lemma_member_index(front, key, at);
        } else {
            lemma_member_index(front, key, m.len() - 1);
        }
    }
}

/// The members after `key` has been given the value `v`.
pub open spec fn put(m: Seq<(Seq<char>, ValueView)>, key: Seq<char>, v: ValueView) -> Seq<
    (Seq<char>, ValueView),
> {
    match member_index(m, key) {
        Some(i) => m.update(i, (key, v)),
        None => m.push((key, v)),
    }
}

/// Whether no two members share a key.
pub open spec fn distinct_keys(m: Seq<(Seq<char>, ValueView)>) -> bool {
    forall|i: int, j: int| 0 <= i < j < m.len() ==> (#[trigger] m[i]).0 != (#[trigger] m[j]).0
}

impl ValueView {
    /// The value of a member of an object.
    pub open spec fn member(self, key: Seq<char>) -> Option<ValueView> {
        match self {
            ValueView::Object(m) => match member_index(m, key) {
                Some(i) => Some(m[i].1),
                None => None,
            },
            _ => None,
        }
    }

    pub open spec fn string(self) -> Option<Seq<char>> {
        match self {
            ValueView::String(s) => Some(s),
            _ => None,
        }
    }
}

impl Value {
    /// The value of a member of an object.
    pub fn get(&self, key: &str) -> (r: Option<&Value>)
        ensures
            match r {
                Some(v) => self.model().member(key@) == Some(v.model()),
                None => self.model().member(key@) is None,
            },
    {
        match self {
            Value::Object(m) => {
                proof {
                    lemma_model_object(*m);
                }
                let ghost mv = member_models(m@);
                let mut i: usize = 0;
                while i < m.len()
                    invariant
                        i <= m@.len(),
                        mv == member_models(m@),
                        self.model() == ValueView::Object(mv),
                        forall|j: int| 0 <= j < i ==> (#[trigger] mv[j]).0 != key@,
                    decreases m@.len() - i,
                {
                    if text::same_text(m[i].0.as_str(), key) {
                        proof {
                            lemma_member_index(mv, key@, i as int);
                        }
                        return Some(&m[i].1);
                    }
                    i = i + 1;
                }
                proof {
                    lemma_member_index(mv, key@, i as int);
                }
                None
            },
            _ => None,
        }
    }

    pub fn as_str(&self) -> (r: Option<&str>)
        ensures
            match r {
                Some(s) => self.model() == ValueView::String(s@),
                None => self.model() !is String,
            },
    {
        match self {
            Value::String(s) => Some(s.as_str()),
            _ => None,
        }
    }

    pub fn as_bool(&self) -> (r: Option<bool>)
        ensures
            match r {
                Some(b) => self.model() == ValueView::Bool(b),
                None => self.model() !is Bool,
            },
    {
        match self {
            Value::Bool(b) => Some(*b),
            _ => None,
        }
    }

    pub fn as_array(&self) -> (r: Option<&[Value]>)
        ensures
            match r {
                Some(a) => self.model() == ValueView::Array(models(a@)),
                None => self.model() !is Array,
            },
    {
        match self {
            Value::Array(a) => {
                proof {
                    lemma_model_array(*a);
                }
                Some(a.as_slice())
            },
            _ => None,
        }
    }
}

impl ValueView {
    /// Equality of values: that of their numbers, characters and elements. The
    /// order of an object's members makes no difference.
    pub open spec fn same(self, other: ValueView) -> bool
        decreases self,
    {
        match self {
            ValueView::Null => other is Null,
            ValueView::Bool(x) => other == ValueView::Bool(x),
            ValueView::Number(x) => other matches ValueView::Number(y) && widths::same_number64(x, y),
            ValueView::String(x) => other == ValueView::String(x),
            ValueView::Array(x) => match other {
                ValueView::Array(y) => x.len() == y.len() && forall|i: int|
                    0 <= i < x.len() ==> (#[trigger] x[i]).same(y[i]),
                _ => false,
            },
            ValueView::Object(x) => match other {
                ValueView::Object(y) => x.len() == y.len() && forall|i: int|
                    0 <= i < x.len() ==> (match other.member((#[trigger] x[i]).0) {
                        Some(v) => x[i].1.same(v),
                        None => false,
                    }),
                _ => false,
            },
        }
    }
}

impl Value {
    /// Whether two values are equal.
    fn same(&self, other: &Value) -> (r: bool)
        ensures
            r == self.model().same(other.model()),
        decreases self,
    {
        match self {
            Value::Null => matches!(other, Value::Null),
            Value::Bool(x) => match other {
                Value::Bool(y) => *x == *y,
                _ => false,
            },
            Value::Number(x) => match other {
                Value::Number(y) => widths::equal64(*x, *y),
                _ => false,
            },
            Value::String(x) => match other {
                Value::String(y) => text::same_text(x.as_str(), y.as_str()),
                _ => false,
            },
            Value::Array(x) => match other {
                Value::Array(y) => {
                    proof {
                        lemma_model_array(*x);
                        lemma_model_array(*y);
                    }
                    if x.len() != y.len() {
                        return false;
                    }
                    let ghost (mx, my) = (models(x@), models(y@));
                    let mut i: usize = 0;
                    while i < x.len()
                        invariant
                            i <= x@.len() == y@.len(),
                            self == Value::Array(*x),
                            mx == models(x@),
                            my == models(y@),
                            self.model() == ValueView::Array(mx),
                            other.model() == ValueView::Array(my),
                            forall|j: int| 0 <= j < i ==> (#[trigger] mx[j]).same(my[j]),
                        decreases x@.len() - i,
                    {
                        assert(decreases_to!(self => x@[i as int]));
                        if !x[i].same(&y[i]) {
                            assert(!mx[i as int].same(my[i as int]));
                            return false;
                        }
                        i = i + 1;
                    }
                    true
                },
                _ => false,
            },
            Value::Object(x) => match other {
                Value::Object(y) => {
                    proof {
                        lemma_model_object(*x);
                        lemma_model_object(*y);
                    }
                    if x.len() != y.len() {
                        return false;
                    }
                    let ghost (mx, my) = (member_models(x@), member_models(y@));
                    let mut i: usize = 0;
                    while i < x.len()
                        invariant
                            i <= x@.len() == y@.len(),
                            self == Value::Object(*x),
                            mx == member_models(x@),
                            my == member_models(y@),
                            self.model() == ValueView::Object(mx),
                            other.model() == ValueView::Object(my),
                            forall|j: int|
                                0 <= j < i ==> (match other.model().member((#[trigger] mx[j]).0) {
                                    Some(v) => mx[j].1.same(v),
                                    None => false,
                                }),
                        decreases x@.len() - i,
                    {
                        assert(decreases_to!(self => x@[i as int].1));
                        let equal = match other.get(x[i].0.as_str()) {
                            Some(v) => x[i].1.same(v),
                            None => false,
                        };
                        if !equal {
                            let ghost m = mx[i as int];
                            assert(!(match other.model().member(m.0) {
                                Some(v) => m.1.same(v),
                                None => false,
                            }));
                            return false;
                        }
                        i = i + 1;
                    }
                    true
                },
                _ => false,
            },
        }
    }
}

impl Value {
    /// A copy of the value.
    fn copied(&self) -> (r: Value)
        ensures
            r.model() == self.model(),
        decreases self,
    {
        match self {
            Value::Null => Value::Null,
            Value::Bool(x) => Value::Bool(*x),
            Value::Number(x) => Value::Number(*x),
            Value::String(x) => Value::String(x.as_str().to_owned()),
            Value::Array(x) => {
                let mut out: Vec<Value> = Vec::new();
                let mut i: usize = 0;
                while i < x.len()
                    invariant
                        i <= x@.len(),
                        self == Value::Array(*x),
                        models(out@) == models(x@).take(i as int),
                    decreases x@.len() - i,
                {
                    assert(decreases_to!(self => self->Array_0));
                    assert(decreases_to!(x@ => x@[i as int]));
                    assert(decreases_to!(self => x@[i as int]));
                    let ghost before = models(out@);
                    let v = x[i].copied();
                    out.push(v);
                    assert(models(out@) =~= before.push(v.model()));
                    assert(models(x@).take(i + 1) =~= models(x@).take(i as int).push(
                        x@[i as int].model(),
                    ));
                    i = i + 1;
                }
                proof {
                    assert(models(x@).take(i as int) =~= models(x@));
                    lemma_model_array(*x);
                    lemma_model_array(out);
                }
                Value::Array(out)
            },
            Value::Object(x) => {
                let mut out: Vec<(String, Value)> = Vec::new();
                let mut i: usize = 0;
                while i < x.len()
                    invariant
                        i <= x@.len(),
                        self == Value::Object(*x),
                        member_models(out@) == member_models(x@).take(i as int),
                    decreases x@.len() - i,
                {
                    assert(decreases_to!(self => self->Object_0));
                    assert(decreases_to!(x@ => x@[i as int]));
                    assert(decreases_to!(self => x@[i as int].1));
                    let ghost before = member_models(out@);
                    let key = x[i].0.as_str().to_owned();
                    let v = x[i].1.copied();
                    let ghost m = (key@, v.model());
                    out.push((key, v));
                    assert(member_models(out@) =~= before.push(m));
                    assert(member_models(x@).take(i + 1) =~= member_models(x@).take(i as int).push(
                        (x@[i as int].0@, x@[i as int].1.model()),
                    ));
                    i = i + 1;
                }
                proof {
                    assert(member_models(x@).take(i as int) =~= member_models(x@));
                    lemma_model_object(*x);
                    lemma_model_object(out);
                }
                Value::Object(out)
            },
        }
    }
}

impl Clone for Value {
    fn clone(&self) -> (r: Self)
        ensures
            r.model() == self.model(),
    {
        self.copied()
    }
}

impl PartialEq for Value {
    /// The order of an object's members makes no difference.
    fn eq(&self, other: &Self) -> (r: bool) {
        self.same(other)
    }
}

impl vstd::std_specs::cmp::PartialEqSpecImpl for Value {
    open spec fn obeys_eq_spec() -> bool {
        true
    }

    open spec fn eq_spec(&self, other: &Self) -> bool {
        self.model().same(other.model())
    }
}

/// What is wrong with a document, and where.
#[derive(Debug, Clone, PartialEq)]
pub struct Error(pub String);

impl View for Error {
    type V = Seq<char>;

    open spec fn view(&self) -> Seq<char> {
        self.0@
    }
}

/// The error as one line of text.
pub open spec fn error_text(e: Seq<char>) -> Seq<char> {
    "json: "@ + e
}

impl Error {
    pub fn message(&self) -> (r: String)
        ensures
            r@ == error_text(self@),
    {
        let mut s = "json: ".to_owned();
        s.append(self.0.as_str());
        s
    }
}

/// What is wrong with a document, and where.
pub struct Fault {
    pub message: Seq<char>,
    pub pos: int,
}

impl Fault {
    pub open spec fn text(self) -> Seq<char> {
        self.message + " at byte "@ + text::decimal(self.pos as nat)
    }
}

/// A value that was read and the position behind it, or a fault. A parser
/// stops at either position.
pub type Parsed<T> = Result<(T, int), Fault>;

pub open spec fn at_byte(message: Seq<char>, pos: int) -> Fault {
    Fault { message, pos }
}

/// Four hexadecimal digits; a plus sign may stand in place of the first.
pub open spec fn hex4_at(b: Seq<u8>, pos: int) -> Parsed<nat> {
    if pos + 4 > b.len() {
        Err(at_byte("bad unicode escape"@, pos))
    } else {
        let s = b.subrange(pos, pos + 4);
        if !valid_utf8(s) {
            Err(at_byte("bad escape"@, pos))
        } else {
            match scan::hex_number(s) {
                Some(v) => Ok((v, pos + 4)),
                None => Err(at_byte("bad escape"@, pos + 4)),
            }
        }
    }
}

/// The character of a `\u` escape whose digits begin at `pos`.
pub open spec fn unicode_at(b: Seq<u8>, pos: int) -> Parsed<char> {
    match hex4_at(b, pos) {
        Err(m) => Err(m),
        Ok((cp, p)) => if 0xD800 <= cp < 0xDC00 {
            if scan::holds(b, p, 0x5C) && scan::holds(b, p + 1, 0x75) {
                match hex4_at(b, p + 2) {
                    Err(m) => Err(m),
                    Ok((lo, q)) => if 0xDC00 <= lo < 0xE000 {
                        Ok((((0x10000 + (cp - 0xD800) * 0x400 + (lo - 0xDC00)) as u32) as char, q))
                    } else {
                        Err(at_byte("bad surrogate pair"@, q))
                    },
                }
            } else {
                Err(at_byte("lone surrogate"@, p))
            }
        } else if 0xDC00 <= cp < 0xE000 {
            Err(at_byte("lone surrogate"@, p))
        } else {
            Ok(((cp as u32) as char, p))
        },
    }
}

/// The character that a backslash and `c` stand for.
pub open spec fn simple_escape(c: u8) -> Option<char> {
    if c == 0x22 {
        Some('"')
    } else if c == 0x5C {
        Some('\\')
    } else if c == 0x2F {
        Some('/')
    } else if c == 0x62 {
        Some('\x08')
    } else if c == 0x66 {
        Some('\x0c')
    } else if c == 0x6E {
        Some('\n')
    } else if c == 0x72 {
        Some('\r')
    } else if c == 0x74 {
        Some('\t')
    } else {
        None
    }
}

/// One character of a string, which is no closing quote, from `pos` on.
pub open spec fn string_char(b: Seq<u8>, pos: int) -> Parsed<char> {
    if b[pos] == 0x5C {
        if pos + 1 >= b.len() {
            Err(at_byte("bad escape"@, pos + 1))
        } else if b[pos + 1] == 0x75 {
            unicode_at(b, pos + 2)
        } else {
            match simple_escape(b[pos + 1]) {
                Some(c) => Ok((c, pos + 2)),
                None => Err(at_byte("bad escape"@, pos + 1)),
            }
        }
    } else {
        let s = b.skip(pos);
        if valid_first_scalar(s) {
            Ok((decode_first_scalar(s) as char, pos + length_of_first_scalar(s)))
        } else {
            Err(at_byte("bad utf-8"@, pos))
        }
    }
}

pub proof fn lemma_string_char(b: Seq<u8>, pos: int)
    requires
        0 <= pos < b.len(),
    ensures
        string_char(b, pos) matches Ok((_, next)) ==> pos < next <= b.len(),
{
}

/// The characters up to the closing quote.
pub open spec fn string_rest(b: Seq<u8>, pos: int) -> Parsed<Seq<char>>
    decreases b.len() - pos,
{
    if pos < 0 || pos >= b.len() {
        Err(at_byte("unterminated string"@, pos))
    } else if b[pos] == 0x22 {
        Ok((seq![], pos + 1))
    } else {
        proof {
            lemma_string_char(b, pos);
        }
        match string_char(b, pos) {
            Err(m) => Err(m),
            Ok((c, next)) => match string_rest(b, next) {
                Err(m) => Err(m),
                Ok((rest, end)) => Ok((seq![c] + rest, end)),
            },
        }
    }
}

pub proof fn lemma_string_rest(b: Seq<u8>, pos: int)
    requires
        0 <= pos,
    ensures
        string_rest(b, pos) matches Ok((_, end)) ==> pos < end <= b.len(),
    decreases b.len() - pos,
{
    if pos < b.len() && b[pos] != 0x22 {
        lemma_string_char(b, pos);
        if let Ok((_, next)) = string_char(b, pos) {
            lemma_string_rest(b, next);
        }
    }
}

/// The bytes that may occur in a number.
pub open spec fn is_number_byte(c: u8) -> bool {
    c == 0x2D || c == 0x2B || c == 0x2E || c == 0x65 || c == 0x45 || 0x30 <= c <= 0x39
}

/// The end of the run of such bytes that begins at `pos`.
pub open spec fn number_end(b: Seq<u8>, pos: int) -> int
    decreases b.len() - pos,
{
    if 0 <= pos < b.len() && is_number_byte(b[pos]) {
        number_end(b, pos + 1)
    } else {
        pos
    }
}

pub proof fn lemma_number_end(b: Seq<u8>, pos: int)
    requires
        0 <= pos <= b.len(),
    ensures
        pos <= number_end(b, pos) <= b.len(),
        pos < b.len() && is_number_byte(b[pos]) ==> pos < number_end(b, pos),
    decreases b.len() - pos,
{
    if pos < b.len() && is_number_byte(b[pos]) {
        lemma_number_end(b, pos + 1);
    }
}

pub open spec fn is_sign(s: Seq<u8>, pos: int) -> bool {
    scan::holds(s, pos, 0x2D) || scan::holds(s, pos, 0x2B)
}

/// Where the digits behind an optional sign begin.
pub open spec fn after_sign(s: Seq<u8>, pos: int) -> int {
    if is_sign(s, pos) {
        pos + 1
    } else {
        pos
    }
}

/// The end of the fraction digits, where the integer digits end at `q`.
pub open spec fn fraction_end(s: Seq<u8>, q: int) -> int {
    if scan::holds(s, q, 0x2E) {
        scan::digits_end(s, q + 1)
    } else {
        q
    }
}

/// The fraction digits, where the integer digits end at `q`.
pub open spec fn fraction(s: Seq<u8>, q: int) -> Seq<u8> {
    if scan::holds(s, q, 0x2E) {
        s.subrange(q + 1, scan::digits_end(s, q + 1))
    } else {
        seq![]
    }
}

/// The exponent that begins at `r`, if what is left of `s` is one.
pub open spec fn exponent(s: Seq<u8>, r: int) -> Option<int> {
    if r == s.len() {
        Some(0)
    } else if !scan::holds(s, r, 0x65) && !scan::holds(s, r, 0x45) {
        None
    } else {
        let t = after_sign(s, r + 1);
        if t < s.len() && scan::digits_end(s, t) == s.len() {
            let v = scan::digits_value(s.skip(t)) as int;
            Some(if scan::holds(s, r + 1, 0x2D) {
                -v
            } else {
                v
            })
        } else {
            None
        }
    }
}

pub open spec fn signed64(negative: bool, mag: nat) -> u64 {
    if negative {
        (mag + widths::SIGN64) as u64
    } else {
        mag as u64
    }
}

/// The binary64 value of a decimal numeral: an optional sign, digits with an
/// optional point, an optional exponent; at least one digit beside the point.
pub open spec fn float_value(s: Seq<u8>) -> Option<u64> {
    let p = after_sign(s, 0);
    let q = scan::digits_end(s, p);
    let f = fraction(s, q);
    let digits = s.subrange(p, q) + f;
    match exponent(s, fraction_end(s, q)) {
        Some(e) => if digits.len() > 0 {
            Some(
                signed64(
                    scan::holds(s, 0, 0x2D),
                    double::scaled_decimal(scan::digits_value(digits), e - f.len()),
                ),
            )
        } else {
            None
        },
        None => None,
    }
}

/// A number at `pos`.
pub open spec fn number_at(b: Seq<u8>, pos: int) -> Parsed<ValueView> {
    let end = number_end(b, pos);
    match float_value(b.subrange(pos, end)) {
        Some(n) => Ok((ValueView::Number(n), end)),
        None => Err(at_byte("bad number"@, end)),
    }
}

/// The word `word` at `pos`, standing for `v`.
pub open spec fn literal_at(b: Seq<u8>, pos: int, word: Seq<u8>, v: ValueView) -> Parsed<
    ValueView,
> {
    if pos + word.len() <= b.len() && b.subrange(pos, pos + word.len()) == word {
        Ok((v, pos + word.len()))
    } else {
        Err(at_byte("bad literal"@, pos))
    }
}

pub open spec fn word_true() -> Seq<u8> {
    seq![0x74u8, 0x72, 0x75, 0x65]
}

pub open spec fn word_false() -> Seq<u8> {
    seq![0x66u8, 0x61, 0x6C, 0x73, 0x65]
}

pub open spec fn word_null() -> Seq<u8> {
    seq![0x6Eu8, 0x75, 0x6C, 0x6C]
}

/// A value, which may stand behind blanks.
pub open spec fn value_at(b: Seq<u8>, pos: int) -> Parsed<ValueView>
    decreases b.len() - pos, 0int,
{
    let p = scan::after_blanks(b, pos);
    if pos < 0 || pos > b.len() {
        Err(at_byte("unexpected value"@, pos))
    } else {
        proof {
            scan::lemma_after_blanks(b, pos);
        }
        if scan::holds(b, p, 0x7B) {
            object_rest(b, p + 1, seq![])
        } else if scan::holds(b, p, 0x5B) {
            let q = scan::after_blanks(b, p + 1);
            if scan::holds(b, q, 0x5D) {
                Ok((ValueView::Array(seq![]), q + 1))
            } else {
                array_rest(b, p + 1, seq![])
            }
        } else if scan::holds(b, p, 0x22) {
            match string_rest(b, p + 1) {
                Err(m) => Err(m),
                Ok((s, end)) => Ok((ValueView::String(s), end)),
            }
        } else if scan::holds(b, p, 0x74) {
            literal_at(b, p, word_true(), ValueView::Bool(true))
        } else if scan::holds(b, p, 0x66) {
            literal_at(b, p, word_false(), ValueView::Bool(false))
        } else if scan::holds(b, p, 0x6E) {
            literal_at(b, p, word_null(), ValueView::Null)
        } else if p < b.len() && (b[p] == 0x2D || 0x30 <= b[p] <= 0x39) {
            number_at(b, p)
        } else {
            Err(at_byte("unexpected value"@, p))
        }
    }
}

/// The elements behind `acc` up to the closing bracket. No comma may follow
/// the last one.
pub open spec fn array_rest(b: Seq<u8>, pos: int, acc: Seq<ValueView>) -> Parsed<ValueView>
    decreases b.len() - pos, 1int,
{
    match value_at(b, pos) {
        Err(m) => Err(m),
        Ok((v, q)) => {
            let r = scan::after_blanks(b, q);
            if !(0 <= pos < q <= b.len()) {
                // A value takes at least one byte.
                Err(at_byte(seq![], q))
            } else if scan::holds(b, r, 0x2C) {
                proof {
                    scan::lemma_after_blanks(b, q);
                    scan::lemma_after_blanks(b, r + 1);
                }
                let s = scan::after_blanks(b, r + 1);
                if scan::holds(b, s, 0x5D) {
                    Err(at_byte("trailing comma"@, s))
                } else {
                    array_rest(b, s, acc.push(v))
                }
            } else if scan::holds(b, r, 0x5D) {
                Ok((ValueView::Array(acc.push(v)), r + 1))
            } else {
                Err(at_byte("expected , or ]"@, r))
            }
        },
    }
}

/// A member, whose key is at `pos`.
pub open spec fn member_at(b: Seq<u8>, pos: int) -> Parsed<(Seq<char>, ValueView)>
    decreases b.len() - pos, 1int,
{
    if !scan::holds(b, pos, 0x22) {
        Err(at_byte("expected string key"@, pos))
    } else {
        proof {
            lemma_string_rest(b, pos + 1);
        }
        match string_rest(b, pos + 1) {
            Err(m) => Err(m),
            Ok((key, q)) => {
                let c = scan::after_blanks(b, q);
                proof {
                    scan::lemma_after_blanks(b, q);
                }
                if !scan::holds(b, c, 0x3A) {
                    Err(at_byte("unexpected character"@, c))
                } else {
                    match value_at(b, c + 1) {
                        Err(m) => Err(m),
                        Ok((v, end)) => Ok(((key, v), end)),
                    }
                }
            },
        }
    }
}

/// The members behind `acc` up to the closing brace.
pub open spec fn object_rest(b: Seq<u8>, pos: int, acc: Seq<(Seq<char>, ValueView)>) -> Parsed<
    ValueView,
>
    decreases b.len() - pos, 2int,
{
    let p = scan::after_blanks(b, pos);
    if pos < 0 || pos > b.len() {
        Err(at_byte("expected string key"@, pos))
    } else if scan::holds(b, p, 0x7D) {
        Ok((ValueView::Object(acc), p + 1))
    } else {
        proof {
            scan::lemma_after_blanks(b, pos);
        }
        match member_at(b, p) {
            Err(m) => Err(m),
            Ok(((key, v), q)) => {
                let r = scan::after_blanks(b, q);
                if !(pos < q <= b.len()) {
                    // A member takes at least one byte.
                    Err(at_byte(seq![], q))
                } else if scan::holds(b, r, 0x2C) {
                    proof {
                        scan::lemma_after_blanks(b, q);
                    }
                    object_rest(b, r + 1, put(acc, key, v))
                } else if scan::holds(b, r, 0x7D) {
                    Ok((ValueView::Object(put(acc, key, v)), r + 1))
                } else {
                    Err(at_byte("expected , or }"@, r))
                }
            },
        }
    }
}

/// The value of a document: one value and nothing behind it but blanks.
pub open spec fn document(b: Seq<u8>) -> Result<ValueView, Seq<char>> {
    match value_at(b, 0) {
        Err(m) => Err(m.text()),
        Ok((v, p)) => {
            let q = scan::after_blanks(b, p);
            if q != b.len() {
                Err(at_byte("trailing data"@, q).text())
            } else {
                Ok(v)
            }
        },
    }
}


/// A document and a position in it.
pub struct Parser<'a> {
    pub b: &'a [u8],
    pub pos: usize,
}

impl<'a> Parser<'a> {
    pub open spec fn wf(&self) -> bool {
        self.pos <= self.b@.len()
    }

    /// An error at the current position.
    pub fn err(&self, msg: &str) -> (r: Error)
        ensures
            r@ == at_byte(msg@, self.pos as int).text(),
    {
        let mut s = msg.to_owned();
        s.append(" at byte ");
        text::push_decimal(&mut s, self.pos as u64);
        Error(s)
    }

    pub fn skip_ws(&mut self)
        requires
            old(self).wf(),
        ensures
            final(self).wf(),
            final(self).b == old(self).b,
            final(self).pos == scan::after_blanks(old(self).b@, old(self).pos as int),
            final(self).pos >= old(self).pos,
    {
        self.pos = scan::skip_blanks(self.b, self.pos);
    }

    /// Whether the current byte is `c`.
    fn sees(&self, c: u8) -> (r: bool)
        ensures
            r == scan::holds(self.b@, self.pos as int, c),
            r ==> self.pos < usize::MAX,
    {
        scan::at(self.b, self.pos, c)
    }

    /// Passes over `ch`, which may stand behind blanks.
    pub fn expect(&mut self, ch: u8) -> (r: Result<(), Error>)
        requires
            old(self).wf(),
        ensures
            final(self).wf(),
            final(self).b == old(self).b,
            ({
                let p = scan::after_blanks(old(self).b@, old(self).pos as int);
                if scan::holds(old(self).b@, p, ch) {
                    r is Ok && final(self).pos == p + 1
                } else {
                    r matches Err(e) && e@ == at_byte("unexpected character"@, p).text()
                        && final(self).pos == p
                }
            }),
    {
        self.skip_ws();
        if !self.sees(ch) {
            return Err(self.err("unexpected character"));
        }
        self.pos = self.pos + 1;
        Ok(())
    }

    /// Reads four hexadecimal digits, or three behind a plus sign.
    pub fn hex4(&mut self) -> (r: Result<u32, Error>)
        requires
            old(self).wf(),
        ensures
            final(self).wf(),
            final(self).b == old(self).b,
            match hex4_at(old(self).b@, old(self).pos as int) {
                Ok((v, end)) => r matches Ok(x) && x == v && x < 0x1_0000 && final(self).pos == end
                    && end == old(self).pos + 4,
                Err(m) => r matches Err(e) && e@ == m.text() && final(self).pos == m.pos,
            },
    {
        if self.b.len() - self.pos < 4 {
            return Err(self.err("bad unicode escape"));
        }
        let s = vstd::slice::slice_subrange(self.b, self.pos, self.pos + 4);
        if text::utf8_text(s).is_none() {
            return Err(self.err("bad escape"));
        }
        self.pos = self.pos + 4;
        match scan::read_hex4(s) {
            Some(v) => Ok(v),
            None => Err(self.err("bad escape")),
        }
    }

    /// Reads the character of a `\u` escape from its digits on.
    fn unicode(&mut self) -> (r: Result<char, Error>)
        requires
            old(self).wf(),
        ensures
            final(self).wf(),
            final(self).b == old(self).b,
            match unicode_at(old(self).b@, old(self).pos as int) {
                Ok((c, end)) => r == Ok::<char, Error>(c) && final(self).pos == end,
                Err(m) => r matches Err(e) && e@ == m.text() && final(self).pos == m.pos,
            },
    {
        let cp: u32 = match self.hex4() {
            Ok(v) => v,
            Err(e) => {
                return Err(e);
            },
        };
        let full: u32 = if cp >= 0xD800 && cp < 0xDC00 {
            // High surrogate: expect \uDC00..\uDFFF.
            let p: usize = self.pos;
            let total: usize = self.b.len();
            if total - p >= 2 && self.b[p] == 0x5C && self.b[p + 1] == 0x75 {
                self.pos = p + 2;
                let lo: u32 = match self.hex4() {
                    Ok(v) => v,
                    Err(e) => {
                        return Err(e);
                    },
                };
                if lo < 0xDC00 || lo >= 0xE000 {
                    return Err(self.err("bad surrogate pair"));
                }
                0x10000 + (cp - 0xD800) * 0x400 + (lo - 0xDC00)
            } else {
                return Err(self.err("lone surrogate"));
            }
        } else if cp >= 0xDC00 && cp < 0xE000 {
            return Err(self.err("lone surrogate"));
        } else {
            cp
        };
        match char::from_u32(full) {
            Some(c) => {
                proof {
                    char_u32_cast(c, full);
                }
                Ok(c)
            },
            None => Err(self.err("bad char")),
        }
    }

    /// Reads one character that is written as it is.
    fn scalar(&mut self) -> (r: Result<char, Error>)
        requires
            old(self).pos < old(self).b@.len(),
        ensures
            final(self).wf(),
            final(self).b == old(self).b,
            ({
                let s = old(self).b@.skip(old(self).pos as int);
                if valid_first_scalar(s) {
                    r == Ok::<char, Error>(decode_first_scalar(s) as char) && final(self).pos == old(
                        self,
                    ).pos + length_of_first_scalar(s)
                } else {
                    r matches Err(e) && e@ == at_byte("bad utf-8"@, old(self).pos as int).text()
                        && final(self).pos == old(self).pos
                }
            }),
    {
        let ghost s = self.b@.skip(self.pos as int);
        let total: usize = self.b.len();
        let b0: u8 = self.b[self.pos];
        assert(s[0] == b0);
        let len: usize = if b0 < 0x80 {
            1
        } else if b0 >= 0xC0 && b0 < 0xE0 {
            2
        } else if b0 >= 0xE0 && b0 < 0xF0 {
            3
        } else if b0 >= 0xF0 && b0 < 0xF8 {
            4
        } else {
            return Err(self.err("bad utf-8"));
        };
        if total - self.pos < len {
            return Err(self.err("bad utf-8"));
        }
        let sub = vstd::slice::slice_subrange(self.b, self.pos, self.pos + len);
        proof {
            assert(sub@ =~= s.take(len as int));
            assert(sub@[0] == s[0]);
            if len >= 2 {
                assert(sub@[1] == s[1]);
            }
            if len >= 3 {
                assert(sub@[2] == s[2]);
            }
            if len >= 4 {
                assert(sub@[3] == s[3]);
            }
            assert(valid_first_scalar(sub@) == valid_first_scalar(s));
            assert(valid_utf8(sub@) == valid_first_scalar(s)) by {
                reveal_with_fuel(valid_utf8, 2);
                if valid_first_scalar(sub@) {
                    assert(pop_first_scalar(sub@).len() == 0);
                }
            }
        }
        match text::utf8_text(sub) {
            None => Err(self.err("bad utf-8")),
            Some(t) => {
                let chars = text::char_vec(t);
                proof {
                    assert(pop_first_scalar(sub@).len() == 0);
                    assert(decode_utf8(sub@)[0] == decode_first_scalar(sub@) as char);
                }
                self.pos = self.pos + len;
                Ok(chars[0])
            },
        }
    }

    /// Reads a string from its opening quote on.
    pub fn string(&mut self) -> (r: Result<String, Error>)
        requires
            scan::holds(old(self).b@, old(self).pos as int, 0x22),
        ensures
            final(self).wf(),
            final(self).b == old(self).b,
            match string_rest(old(self).b@, old(self).pos + 1) {
                Ok((t, end)) => r matches Ok(s) && s@ == t && final(self).pos == end,
                Err(m) => r matches Err(e) && e@ == m.text() && final(self).pos == m.pos,
            },
    {
        let ghost b = self.b@;
        let ghost start = self.pos + 1;
        let total: usize = self.b.len();
        self.pos = self.pos + 1;
        let mut s = String::new();
        assert(s@ =~= seq![]);
        proof {
            if let Ok((t, end)) = string_rest(b, start) {
                assert(s@ + t =~= t);
            }
        }
        while self.pos < total
            invariant
                self.wf(),
                self.b == old(self).b,
                b == self.b@,
                total == b.len(),
                match string_rest(b, self.pos as int) {
                    Ok((t, end)) => string_rest(b, start) == Ok::<(Seq<char>, int), Fault>(
                        (s@ + t, end),
                    ),
                    Err(m) => string_rest(b, start) == Err::<(Seq<char>, int), Fault>(m),
                },
                start == old(self).pos + 1,
            decreases total - self.pos,
        {
            let ghost before = s@;
            let ghost here = self.pos as int;
            let c: u8 = self.b[self.pos];
            if c == 0x22 {
                self.pos = self.pos + 1;
                assert(before + Seq::<char>::empty() =~= before);
                return Ok(s);
            }
            proof {
                lemma_string_char(b, here);
            }
            let ch: char = if c == 0x5C {
                self.pos = self.pos + 1;
                if self.pos >= total {
                    return Err(self.err("bad escape"));
                }
                let x: u8 = self.b[self.pos];
                if x == 0x75 {
                    self.pos = self.pos + 1;
                    match self.unicode() {
                        Ok(u) => u,
                        Err(e) => {
                            return Err(e);
                        },
                    }
                } else {
                    let plain: char = if x == 0x22 {
                        '"'
                    } else if x == 0x5C {
                        '\\'
                    } else if x == 0x2F {
                        '/'
                    } else if x == 0x62 {
                        '\x08'
                    } else if x == 0x66 {
                        '\x0c'
                    } else if x == 0x6E {
                        '\n'
                    } else if x == 0x72 {
                        '\r'
                    } else if x == 0x74 {
                        '\t'
                    } else {
                        return Err(self.err("bad escape"));
                    };
                    self.pos = self.pos + 1;
                    plain
                }
            } else {
                match self.scalar() {
                    Ok(u) => u,
                    Err(e) => {
                        return Err(e);
                    },
                }
            };
            s.push(ch);
            proof {
                assert(string_char(b, here) == Ok::<(char, int), Fault>((ch, self.pos as int)));
                if let Ok((t, end)) = string_rest(b, self.pos as int) {
                    assert(before + (seq![ch] + t) =~= s@ + t);
                }
            }
        }
        Err(self.err("unterminated string"))
    }

    /// Reads `word`, which stands for `v`.
    fn literal(&mut self, word: &[u8], v: Value) -> (r: Result<Value, Error>)
        requires
            old(self).wf(),
        ensures
            final(self).wf(),
            final(self).b == old(self).b,
            match literal_at(old(self).b@, old(self).pos as int, word@, v.model()) {
                Ok((m, end)) => r matches Ok(x) && x.model() == m && final(self).pos == end,
                Err(m) => r matches Err(e) && e@ == m.text() && final(self).pos == m.pos,
            },
    {
        if word.len() <= self.b.len() - self.pos {
            let s = vstd::slice::slice_subrange(self.b, self.pos, self.pos + word.len());
            if crate::bytes::same_bytes(s, word) {
                self.pos = self.pos + word.len();
                return Ok(v);
            }
        }
        Err(self.err("bad literal"))
    }
}

/// The largest exponent that is told apart from larger ones.
pub const EXPONENT_CAP: i128 = 1_000_000_000_000_000_000_000_000_000_000;

pub open spec fn capped(v: nat) -> int {
    if v < EXPONENT_CAP {
        v as int
    } else {
        EXPONENT_CAP as int
    }
}

/// The value of decimal digits, or the cap where that is smaller.
fn capped_number(s: &[u8]) -> (r: i128)
    requires
        scan::all_digits(s@),
    ensures
        r == capped(scan::digits_value(s@)),
{
    let mut v: i128 = 0;
    let mut i: usize = 0;
    assert(s@.take(0) =~= seq![]);
    while i < s.len()
        invariant
            i <= s@.len(),
            scan::all_digits(s@),
            v == capped(scan::digits_value(s@.take(i as int))),
            0 <= v <= EXPONENT_CAP,
        decreases s@.len() - i,
    {
        assert(0x30 <= s@[i as int] <= 0x39);
        assert(s@.take(i + 1).drop_last() =~= s@.take(i as int));
        let w: i128 = v * 10 + (s[i] - 0x30) as i128;
        v = if w < EXPONENT_CAP {
            w
        } else {
            EXPONENT_CAP
        };
        i = i + 1;
    }
    assert(s@.take(s@.len() as int) =~= s@);
    v
}

/// The exponent at `r`, or the nearest one in the capped range.
fn read_exponent(s: &[u8], r: usize) -> (x: Option<i128>)
    requires
        r <= s@.len(),
    ensures
        match x {
            Some(e) => exponent(s@, r as int) matches Some(v) && (if v < -EXPONENT_CAP {
                e == -EXPONENT_CAP
            } else if v > EXPONENT_CAP {
                e == EXPONENT_CAP
            } else {
                e == v
            }),
            None => exponent(s@, r as int) is None,
        },
{
    let total: usize = s.len();
    if r == total {
        return Some(0);
    }
    if s[r] != 0x65 && s[r] != 0x45 {
        return None;
    }
    let negative = scan::at(s, r + 1, 0x2D);
    let t: usize = if negative || scan::at(s, r + 1, 0x2B) {
        r + 2
    } else {
        r + 1
    };
    if t >= total {
        return None;
    }
    let end: usize = scan::skip_digits(s, t);
    if end != total {
        return None;
    }
    let digits = vstd::slice::slice_subrange(s, t, total);
    assert(digits@ =~= s@.skip(t as int));
    let v: i128 = capped_number(digits);
    if negative {
        Some(-v)
    } else {
        Some(v)
    }
}

/// Exponents beyond the cap make no difference.
proof fn lemma_capped_exponent(digits: Seq<u8>, v: int, e: int, shift: int)
    requires
        scan::all_digits(digits),
        digits.len() <= usize::MAX,
        0 <= shift <= usize::MAX,
        if v < -EXPONENT_CAP {
            e == -EXPONENT_CAP
        } else if v > EXPONENT_CAP {
            e == EXPONENT_CAP
        } else {
            e == v
        },
    ensures
        double::scaled_decimal(scan::digits_value(digits), v - shift) == double::scaled_decimal(
            scan::digits_value(digits),
            e - shift,
        ),
{
    let n = scan::digits_value(digits);
    if n == 0 {
        double::lemma_decimal_zero(v - shift);
        double::lemma_decimal_zero(e - shift);
    } else if v > EXPONENT_CAP {
        double::lemma_decimal_overflow(n, v - shift);
        double::lemma_decimal_overflow(n, e - shift);
    } else if v < -EXPONENT_CAP {
        double::lemma_decimal_underflow(digits, v - shift);
        double::lemma_decimal_underflow(digits, e - shift);
    }
}

/// Reads a decimal numeral as binary64.
pub fn parse_float(s: &[u8]) -> (r: Option<u64>)
    ensures
        r == float_value(s@),
{
    let total: usize = s.len();
    let negative = scan::at(s, 0, 0x2D);
    let p: usize = if negative || scan::at(s, 0, 0x2B) {
        1
    } else {
        0
    };
    let q: usize = scan::skip_digits(s, p);
    let mut digits: Vec<u8> = Vec::new();
    digits.extend_from_slice(vstd::slice::slice_subrange(s, p, q));
    assert(digits@ =~= s@.subrange(p as int, q as int));
    let (f, r): (usize, usize) = if scan::at(s, q, 0x2E) {
        let r: usize = scan::skip_digits(s, q + 1);
        digits.extend_from_slice(vstd::slice::slice_subrange(s, q + 1, r));
        (r - q - 1, r)
    } else {
        (0, q)
    };
    proof {
        assert(digits@ =~= s@.subrange(p as int, q as int) + fraction(s@, q as int));
        assert(scan::all_digits(digits@)) by {
            assert forall|i: int| 0 <= i < digits@.len() implies 0x30 <= #[trigger] digits@[i]
                <= 0x39 by {
                if i < q - p {
                    assert(digits@[i] == s@[p + i]);
                } else {
                    assert(digits@[i] == s@[q + 1 + (i - (q - p))]);
                }
            }
        }
    }
    let e: i128 = match read_exponent(s, r) {
        Some(e) => e,
        None => {
            return None;
        },
    };
    if digits.len() == 0 {
        return None;
    }
    proof {
        lemma_capped_exponent(
            digits@,
            exponent(s@, r as int)->0,
            e as int,
            f as int,
        );
    }
    let m: u64 = double::from_decimal(digits.as_slice(), e - f as i128);
    proof {
        double::lemma_magnitude(scan::digits_value(digits@), e - f);
    }
    if negative {
        Some(m + widths::SIGN64)
    } else {
        Some(m)
    }
}


impl<'a> Parser<'a> {
    /// Reads a number.
    fn number(&mut self) -> (r: Result<Value, Error>)
        requires
            old(self).wf(),
        ensures
            final(self).wf(),
            final(self).b == old(self).b,
            match number_at(old(self).b@, old(self).pos as int) {
                Ok((m, end)) => r matches Ok(x) && x.model() == m && final(self).pos == end,
                Err(m) => r matches Err(e) && e@ == m.text() && final(self).pos == m.pos,
            },
    {
        let start: usize = self.pos;
        let mut p: usize = start;
        let total: usize = self.b.len();
        while p < total && (self.b[p] == 0x2D || self.b[p] == 0x2B || self.b[p] == 0x2E || self.b[p]
            == 0x65 || self.b[p] == 0x45 || (self.b[p] >= 0x30 && self.b[p] <= 0x39))
            invariant
                start <= p <= total == self.b@.len(),
                number_end(self.b@, start as int) == number_end(self.b@, p as int),
            decreases total - p,
        {
            p = p + 1;
        }
        let s = vstd::slice::slice_subrange(self.b, start, p);
        self.pos = p;
        match parse_float(s) {
            Some(n) => Ok(Value::Number(n)),
            None => Err(self.err("bad number")),
        }
    }

    /// Reads a value.
    pub fn value(&mut self) -> (r: Result<Value, Error>)
        requires
            old(self).wf(),
        ensures
            final(self).wf(),
            final(self).b == old(self).b,
            match value_at(old(self).b@, old(self).pos as int) {
                Ok((m, end)) => r matches Ok(x) && x.model() == m && final(self).pos == end && end
                    > old(self).pos,
                Err(m) => r matches Err(e) && e@ == m.text() && final(self).pos == m.pos,
            },
        decreases old(self).b@.len() - old(self).pos, 3int,
    {
        let ghost b = self.b@;
        self.skip_ws();
        if self.pos >= self.b.len() {
            return Err(self.err("unexpected value"));
        }
        let c: u8 = self.b[self.pos];
        if c == 0x7B {
            self.object()
        } else if c == 0x5B {
            self.array()
        } else if c == 0x22 {
            proof {
                lemma_string_rest(b, self.pos + 1);
            }
            match self.string() {
                Ok(s) => Ok(Value::String(s)),
                Err(e) => Err(e),
            }
        } else if c == 0x74 {
            let word: [u8; 4] = [0x74, 0x72, 0x75, 0x65];
            assert(word@ =~= word_true());
            self.literal(word.as_slice(), Value::Bool(true))
        } else if c == 0x66 {
            let word: [u8; 5] = [0x66, 0x61, 0x6C, 0x73, 0x65];
            assert(word@ =~= word_false());
            self.literal(word.as_slice(), Value::Bool(false))
        } else if c == 0x6E {
            let word: [u8; 4] = [0x6E, 0x75, 0x6C, 0x6C];
            assert(word@ =~= word_null());
            self.literal(word.as_slice(), Value::Null)
        } else if c == 0x2D || (c >= 0x30 && c <= 0x39) {
            proof {
                lemma_number_end(b, self.pos as int);
            }
            self.number()
        } else {
            Err(self.err("unexpected value"))
        }
    }

    /// Reads an array from its opening bracket on.
    fn array(&mut self) -> (r: Result<Value, Error>)
        requires
            scan::holds(old(self).b@, old(self).pos as int, 0x5B),
        ensures
            final(self).wf(),
            final(self).b == old(self).b,
            ({
                let b = old(self).b@;
                let p = old(self).pos + 1;
                let q = scan::after_blanks(b, p);
                let want = if scan::holds(b, q, 0x5D) {
                    Ok((ValueView::Array(seq![]), q + 1))
                } else {
                    array_rest(b, p, seq![])
                };
                match want {
                    Ok((m, end)) => r matches Ok(x) && x.model() == m && final(self).pos == end
                        && end > old(self).pos,
                    Err(m) => r matches Err(e) && e@ == m.text() && final(self).pos == m.pos,
                }
            }),
        decreases old(self).b@.len() - old(self).pos, 0int,
    {
        let ghost b = self.b@;
        let ghost start = self.pos + 1;
        let total: usize = self.b.len();
        self.pos = self.pos + 1;
        let mut v: Vec<Value> = Vec::new();
        assert(models(v@) =~= seq![]);
        let p: usize = scan::skip_blanks(self.b, self.pos);
        if scan::at(self.b, p, 0x5D) {
            self.pos = p + 1;
            proof {
                lemma_model_array(v);
            }
            return Ok(Value::Array(v));
        }
        loop
            invariant
                self.wf(),
                self.b == old(self).b,
                b == self.b@,
                start == old(self).pos + 1,
                self.pos >= start,
                array_rest(b, start, seq![]) == array_rest(b, self.pos as int, models(v@)),
                !scan::holds(b, scan::after_blanks(b, start), 0x5D),
            decreases b.len() - self.pos,
        {
            let ghost before = models(v@);
            let ghost here = self.pos as int;
            match self.value() {
                Err(e) => {
                    return Err(e);
                },
                Ok(x) => {
                    let ghost m = x.model();
                    v.push(x);
                    assert(models(v@) =~= before.push(m));
                },
            }
            self.skip_ws();
            if self.sees(0x2C) {
                self.pos = self.pos + 1;
                self.skip_ws();
                if self.sees(0x5D) {
                    return Err(self.err("trailing comma"));
                }
            } else if self.sees(0x5D) {
                self.pos = self.pos + 1;
                proof {
                    lemma_model_array(v);
                }
                return Ok(Value::Array(v));
            } else {
                return Err(self.err("expected , or ]"));
            }
        }
    }

    /// Reads a member from its key on.
    fn member(&mut self) -> (r: Result<(String, Value), Error>)
        requires
            old(self).wf(),
        ensures
            final(self).wf(),
            final(self).b == old(self).b,
            match member_at(old(self).b@, old(self).pos as int) {
                Ok(((k, m), end)) => r matches Ok((key, x)) && key@ == k && x.model() == m && end
                    > old(self).pos && final(self).pos == end,
                Err(m) => r matches Err(e) && e@ == m.text() && final(self).pos == m.pos,
            },
        decreases old(self).b@.len() - old(self).pos, 1int,
    {
        let ghost b = self.b@;
        if !self.sees(0x22) {
            return Err(self.err("expected string key"));
        }
        proof {
            lemma_string_rest(b, self.pos + 1);
        }
        let key: String = match self.string() {
            Ok(k) => k,
            Err(e) => {
                return Err(e);
            },
        };
        proof {
            scan::lemma_after_blanks(b, self.pos as int);
        }
        match self.expect(0x3A) {
            Ok(_) => {},
            Err(e) => {
                return Err(e);
            },
        }
        match self.value() {
            Ok(v) => Ok((key, v)),
            Err(e) => Err(e),
        }
    }

    /// Reads an object from its opening brace on.
    fn object(&mut self) -> (r: Result<Value, Error>)
        requires
            scan::holds(old(self).b@, old(self).pos as int, 0x7B),
        ensures
            final(self).wf(),
            final(self).b == old(self).b,
            match object_rest(old(self).b@, old(self).pos + 1, seq![]) {
                Ok((m, end)) => r matches Ok(x) && x.model() == m && final(self).pos == end && end
                    > old(self).pos,
                Err(m) => r matches Err(e) && e@ == m.text() && final(self).pos == m.pos,
            },
        decreases old(self).b@.len() - old(self).pos, 2int,
    {
        let ghost b = self.b@;
        let ghost start = self.pos + 1;
        let total: usize = self.b.len();
        self.pos = self.pos + 1;
        let mut m: Members = Members::new();
        loop
            invariant
                self.wf(),
                self.b == old(self).b,
                b == self.b@,
                start == old(self).pos + 1,
                self.pos >= start,
                m.wf(),
                object_rest(b, start, seq![]) == object_rest(b, self.pos as int, m@),
            decreases b.len() - self.pos,
        {
            let ghost here = self.pos as int;
            self.skip_ws();
            if self.sees(0x7D) {
                self.pos = self.pos + 1;
                return Ok(m.into_value());
            }
            let (key, v) = match self.member() {
                Ok(x) => x,
                Err(e) => {
                    return Err(e);
                },
            };
            m.put(key, v);
            self.skip_ws();
            if self.sees(0x2C) {
                self.pos = self.pos + 1;
            } else if self.sees(0x7D) {
                self.pos = self.pos + 1;
                return Ok(m.into_value());
            } else {
                return Err(self.err("expected , or }"));
            }
        }
    }
}

/// Members under collection, with the position of each key.
struct Members {
    items: Vec<(String, Value)>,
    index: StringHashMap<usize>,
}

impl View for Members {
    type V = Seq<(Seq<char>, ValueView)>;

    closed spec fn view(&self) -> Seq<(Seq<char>, ValueView)> {
        member_models(self.items@)
    }
}

impl Members {
    spec fn wf(&self) -> bool {
        indexes(self.index@, self@)
    }

    fn new() -> (r: Members)
        ensures
            r.wf(),
            r@ == Seq::<(Seq<char>, ValueView)>::empty(),
    {
        let r = Members { items: Vec::new(), index: StringHashMap::new() };
        assert(r@ =~= seq![]);
        r
    }

    fn put(&mut self, key: String, v: Value)
        requires
            old(self).wf(),
        ensures
            final(self).wf(),
            final(self)@ == put(old(self)@, key@, v.model()),
    {
        let ghost acc = self@;
        let ghost k = key@;
        let ghost vm = v.model();
        let ghost before = self.index@;
        proof {
            lemma_indexed(before, acc, k);
        }
        let found: Option<usize> = match self.index.get(key.as_str()) {
            Some(i) => Some(*i),
            None => None,
        };
        match found {
            Some(at) => {
                self.items.set(at, (key, v));
                proof {
                    lemma_index_replaced(before, acc, k, vm);
                }
            },
            None => {
                let n: usize = self.items.len();
                self.index.insert(key.clone(), n);
                self.items.push((key, v));
                proof {
                    lemma_index_added(before, acc, k, vm);
                }
            },
        }
        assert(self@ =~= put(acc, k, vm));
    }

    fn into_value(self) -> (r: Value)
        ensures
            r.model() == ValueView::Object(self@),
    {
        proof {
            lemma_model_object(self.items);
        }
        Value::Object(self.items)
    }
}

/// Whether `index` gives the position of each key.
spec fn indexes(index: Map<Seq<char>, usize>, m: Seq<(Seq<char>, ValueView)>) -> bool {
    &&& forall|k: Seq<char>| #[trigger]
        index.contains_key(k) ==> index[k] < m.len() && m[index[k] as int].0 == k
    &&& forall|i: int|
        0 <= i < m.len() ==> index.contains_key((#[trigger] m[i]).0) && index[m[i].0] == i
}

/// An index finds the member that a search finds.
proof fn lemma_indexed(
    index: Map<Seq<char>, usize>,
    m: Seq<(Seq<char>, ValueView)>,
    k: Seq<char>,
)
    requires
        indexes(index, m),
    ensures
        member_index(m, k) == (if index.contains_key(k) {
            Some(index[k] as int)
        } else {
            None
        }),
{
    if index.contains_key(k) {
        let at = index[k] as int;
        assert forall|j: int| 0 <= j < at implies (#[trigger] m[j]).0 != k by {
            assert(index[m[j].0] == j);
        }
        lemma_member_index(m, k, at);
    } else {
        assert forall|j: int| 0 <= j < m.len() implies (#[trigger] m[j]).0 != k by {
            assert(index.contains_key(m[j].0));
        }
        lemma_member_index(m, k, m.len() as int);
    }
}

proof fn lemma_index_replaced(
    index: Map<Seq<char>, usize>,
    m: Seq<(Seq<char>, ValueView)>,
    k: Seq<char>,
    v: ValueView,
)
    requires
        indexes(index, m),
        index.contains_key(k),
    ensures
        indexes(index, put(m, k, v)),
{
    lemma_indexed(index, m, k);
    let n = put(m, k, v);
    assert forall|i: int| 0 <= i < n.len() implies index.contains_key((#[trigger] n[i]).0)
        && index[n[i].0] == i by {
        assert(m[i].0 == n[i].0);
    }
}

proof fn lemma_index_added(
    index: Map<Seq<char>, usize>,
    m: Seq<(Seq<char>, ValueView)>,
    k: Seq<char>,
    v: ValueView,
)
    requires
        indexes(index, m),
        !index.contains_key(k),
        m.len() <= usize::MAX,
    ensures
        indexes(index.insert(k, m.len() as usize), put(m, k, v)),
{
    lemma_indexed(index, m, k);
    let n = put(m, k, v);
    let ix = index.insert(k, m.len() as usize);
    assert forall|i: int| 0 <= i < n.len() implies ix.contains_key((#[trigger] n[i]).0)
        && ix[n[i].0] == i by {
        if i < m.len() {
            assert(m[i].0 == n[i].0);
            assert(index.contains_key(m[i].0));
        }
    }
}

/// Parses a JSON document.
pub fn parse(b: &[u8]) -> (r: Result<Value, Error>)
    ensures
        match document(b@) {
            Ok(m) => r matches Ok(v) && v.model() == m,
            Err(m) => r matches Err(e) && e@ == m,
        },
{
    let mut p = Parser { b, pos: 0 };
    let v: Value = match p.value() {
        Ok(v) => v,
        Err(e) => {
            return Err(e);
        },
    };
    p.skip_ws();
    if p.pos != b.len() {
        return Err(p.err("trailing data"));
    }
    Ok(v)
}


impl ValueView {
    /// Whether no object in the value has two members with the same key.
    pub open spec fn well_keyed(self) -> bool
        decreases self,
    {
        match self {
            ValueView::Array(a) => forall|i: int|
                #![trigger a[i]]
                0 <= i < a.len() ==> a[i].well_keyed(),
            ValueView::Object(m) => distinct_keys(m) && forall|i: int|
                #![trigger m[i]]
                0 <= i < m.len() ==> m[i].1.well_keyed(),
            _ => true,
        }
    }
}

proof fn lemma_put_distinct(m: Seq<(Seq<char>, ValueView)>, key: Seq<char>, v: ValueView)
    requires
        ValueView::Object(m).well_keyed(),
        v.well_keyed(),
    ensures
        ValueView::Object(put(m, key, v)).well_keyed(),
{
    lemma_member_index_found(m, key);
    let n = put(m, key, v);
    assert forall|i: int, j: int| 0 <= i < j < n.len() implies (#[trigger] n[i]).0 != (
    #[trigger] n[j]).0 by {
        if j < m.len() {
            assert(n[i].0 == m[i].0 && n[j].0 == m[j].0);
        } else {
            assert(n[i] == m[i] && m[i].0 != key);
        }
    }
    assert forall|i: int| 0 <= i < n.len() implies (#[trigger] n[i]).1.well_keyed() by {
        if i < m.len() {
            assert(m[i].1.well_keyed());
        }
    }
}

proof fn lemma_member_index_found(m: Seq<(Seq<char>, ValueView)>, key: Seq<char>)
    ensures
        match member_index(m, key) {
            Some(i) => 0 <= i < m.len() && m[i].0 == key,
            None => forall|i: int| 0 <= i < m.len() ==> (#[trigger] m[i]).0 != key,
        },
    decreases m.len(),
{
    if m.len() > 0 {
        lemma_member_index_found(m.drop_last(), key);
        if member_index(m, key) is None {
            assert forall|i: int| 0 <= i < m.len() implies (#[trigger] m[i]).0 != key by {
                if i < m.len() - 1 {
                    assert(m.drop_last()[i] == m[i]);
                }
            }
        }
    }
}

proof fn lemma_value_well_keyed(b: Seq<u8>, pos: int)
    ensures
        value_at(b, pos) matches Ok((v, _)) ==> v.well_keyed(),
    decreases b.len() - pos, 0int,
{
    if 0 <= pos <= b.len() {
        scan::lemma_after_blanks(b, pos);
        let p = scan::after_blanks(b, pos);
        if scan::holds(b, p, 0x7B) {
            lemma_object_well_keyed(b, p + 1, seq![]);
        } else if scan::holds(b, p, 0x5B) {
            lemma_array_well_keyed(b, p + 1, seq![]);
        }
    }
}

proof fn lemma_element_well_keyed(a: Seq<ValueView>, i: int)
    requires
        ValueView::Array(a).well_keyed(),
        0 <= i < a.len(),
    ensures
        a[i].well_keyed(),
{
    let all = ValueView::Array(a);
    assert(all.well_keyed());
    assert(all->Array_0[i].well_keyed());
}

proof fn lemma_array_well_keyed(b: Seq<u8>, pos: int, acc: Seq<ValueView>)
    requires
        ValueView::Array(acc).well_keyed(),
    ensures
        array_rest(b, pos, acc) matches Ok((v, _)) ==> v.well_keyed(),
    decreases b.len() - pos, 1int,
{
    lemma_value_well_keyed(b, pos);
    if let Ok((v, q)) = value_at(b, pos) {
        if 0 <= pos < q <= b.len() {
            let r = scan::after_blanks(b, q);
            scan::lemma_after_blanks(b, q);
            let more = acc.push(v);
            assert(ValueView::Array(more).well_keyed()) by {
                assert forall|i: int| 0 <= i < more.len() implies (#[trigger] more[i]).well_keyed() by {
                    if i < acc.len() {
                        lemma_element_well_keyed(acc, i);
                    }
                }
            }
            if scan::holds(b, r, 0x2C) {
                scan::lemma_after_blanks(b, r + 1);
                lemma_array_well_keyed(b, scan::after_blanks(b, r + 1), more);
            }
        }
    }
}

proof fn lemma_member_well_keyed(b: Seq<u8>, pos: int)
    ensures
        member_at(b, pos) matches Ok((kv, _)) ==> kv.1.well_keyed(),
    decreases b.len() - pos, 1int,
{
    if scan::holds(b, pos, 0x22) {
        lemma_string_rest(b, pos + 1);
        if let Ok((_, q)) = string_rest(b, pos + 1) {
            scan::lemma_after_blanks(b, q);
            let c = scan::after_blanks(b, q);
            if scan::holds(b, c, 0x3A) {
                lemma_value_well_keyed(b, c + 1);
            }
        }
    }
}

proof fn lemma_object_well_keyed(b: Seq<u8>, pos: int, acc: Seq<(Seq<char>, ValueView)>)
    requires
        ValueView::Object(acc).well_keyed(),
    ensures
        object_rest(b, pos, acc) matches Ok((v, _)) ==> v.well_keyed(),
    decreases b.len() - pos, 2int,
{
    if 0 <= pos <= b.len() {
        let p = scan::after_blanks(b, pos);
        scan::lemma_after_blanks(b, pos);
        lemma_member_well_keyed(b, p);
        if let Ok(((key, v), q)) = member_at(b, p) {
            if pos < q <= b.len() {
                let r = scan::after_blanks(b, q);
                scan::lemma_after_blanks(b, q);
                lemma_put_distinct(acc, key, v);
                if scan::holds(b, r, 0x2C) {
                    lemma_object_well_keyed(b, r + 1, put(acc, key, v));
                }
            }
        }
    }
}

/// No object of a parsed document has two members with the same key.
pub proof fn lemma_document_well_keyed(b: Seq<u8>)
    ensures
        document(b) matches Ok(v) ==> v.well_keyed(),
{
    lemma_value_well_keyed(b, 0);
}

} // verus!
