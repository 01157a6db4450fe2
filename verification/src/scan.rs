//! Scanning of ASCII bytes: blanks, digits, numerals.
use vstd::prelude::*;

verus! {

pub open spec fn is_blank(c: u8) -> bool {
    c == 0x20 || c == 0x09 || c == 0x0A || c == 0x0D
}

/// The first position from `pos` on that holds no blank.
pub open spec fn after_blanks(b: Seq<u8>, pos: int) -> int
    decreases b.len() - pos,
{
    if 0 <= pos < b.len() && is_blank(b[pos]) {
        after_blanks(b, pos + 1)
    } else {
        pos
    }
}

pub proof fn lemma_after_blanks(b: Seq<u8>, pos: int)
    requires
        0 <= pos <= b.len(),
    ensures
        pos <= after_blanks(b, pos) <= b.len(),
    decreases b.len() - pos,
{
    if pos < b.len() && is_blank(b[pos]) {
        lemma_after_blanks(b, pos + 1);
    }
}

/// Whether the byte at `pos` is `c`.
pub open spec fn holds(b: Seq<u8>, pos: int, c: u8) -> bool {
    0 <= pos < b.len() && b[pos] == c
}


pub open spec fn is_hex(c: u8) -> bool {
    0x30 <= c <= 0x39 || 0x41 <= c <= 0x46 || 0x61 <= c <= 0x66
}

pub open spec fn hex_digit(c: u8) -> nat {
    if c <= 0x39 {
        (c - 0x30) as nat
    } else if c <= 0x46 {
        (c - 0x41 + 10) as nat
    } else {
        (c - 0x61 + 10) as nat
    }
}

/// The number that hexadecimal digits denote.
pub open spec fn hex_value(s: Seq<u8>) -> nat
    decreases s.len(),
{
    if s.len() == 0 {
        0
    } else {
        16 * hex_value(s.drop_last()) + hex_digit(s.last())
    }
}

pub open spec fn all_hex(s: Seq<u8>) -> bool {
    forall|i: int| 0 <= i < s.len() ==> is_hex(#[trigger] s[i])
}

/// Reads hexadecimal digits behind an optional plus sign.
pub open spec fn hex_number(s: Seq<u8>) -> Option<nat> {
    let d = if s.len() > 0 && s[0] == 0x2B {
        s.skip(1)
    } else {
        s
    };
    if d.len() > 0 && all_hex(d) {
        Some(hex_value(d))
    } else {
        None
    }
}

/// The end of the run of decimal digits that begins at `pos`.
pub open spec fn digits_end(b: Seq<u8>, pos: int) -> int
    decreases b.len() - pos,
{
    if 0 <= pos < b.len() && 0x30 <= b[pos] <= 0x39 {
        digits_end(b, pos + 1)
    } else {
        pos
    }
}

pub proof fn lemma_digits_end(b: Seq<u8>, pos: int)
    requires
        0 <= pos <= b.len(),
    ensures
        pos <= digits_end(b, pos) <= b.len(),
    decreases b.len() - pos,
{
    if pos < b.len() && 0x30 <= b[pos] <= 0x39 {
        lemma_digits_end(b, pos + 1);
    }
}

/// The number that decimal digits denote.
pub open spec fn digits_value(s: Seq<u8>) -> nat
    decreases s.len(),
{
    if s.len() == 0 {
        0
    } else {
        (10 * digits_value(s.drop_last()) + (s.last() - 0x30)) as nat
    }
}

pub fn skip_blanks(b: &[u8], pos: usize) -> (r: usize)
    requires
        pos <= b@.len(),
    ensures
        r == after_blanks(b@, pos as int),
        pos <= r <= b@.len(),
{
    let mut p: usize = pos;
    while p < b.len() && (b[p] == 0x20 || b[p] == 0x09 || b[p] == 0x0A || b[p] == 0x0D)
        invariant
            pos <= p <= b@.len(),
            after_blanks(b@, pos as int) == after_blanks(b@, p as int),
        decreases b@.len() - p,
    {
        p = p + 1;
    }
    p
}

pub fn at(b: &[u8], pos: usize, c: u8) -> (r: bool)
    ensures
        r == holds(b@, pos as int, c),
        r ==> pos < usize::MAX,
{
    pos < b.len() && b[pos] == c
}

fn hex_digit_of(c: u8) -> (r: Option<u32>)
    ensures
        match r {
            Some(d) => is_hex(c) && d == hex_digit(c) && d < 16,
            None => !is_hex(c),
        },
{
    if c >= 0x30 && c <= 0x39 {
        Some((c - 0x30) as u32)
    } else if c >= 0x41 && c <= 0x46 {
        Some((c - 0x41 + 10) as u32)
    } else if c >= 0x61 && c <= 0x66 {
        Some((c - 0x61 + 10) as u32)
    } else {
        None
    }
}

/// Four bytes read as hexadecimal.
pub fn read_hex4(s: &[u8]) -> (r: Option<u32>)
    requires
        s@.len() == 4,
    ensures
        match r {
            Some(v) => hex_number(s@) == Some(v as nat) && v < 0x1_0000,
            None => hex_number(s@) is None,
        },
{
    let start: usize = if s[0] == 0x2B {
        1
    } else {
        0
    };
    let ghost d = s@.skip(start as int);
    assert(s@.skip(0) =~= s@);
    let mut v: u32 = 0;
    let mut i: usize = start;
    while i < 4
        invariant
            start <= i <= 4,
            start <= 1,
            s@.len() == 4,
            d == s@.skip(start as int),
            d == (if s@.len() > 0 && s@[0] == 0x2B {
                s@.skip(1)
            } else {
                s@
            }),
            all_hex(d.take(i - start)),
            v == hex_value(d.take(i - start)),
            i - start == 0 ==> v == 0,
            i - start == 1 ==> v < 16,
            i - start == 2 ==> v < 256,
            i - start == 3 ==> v < 4096,
            i - start == 4 ==> v < 65536,
        decreases 4 - i,
    {
        match hex_digit_of(s[i]) {
            None => {
                assert(!is_hex(d[i - start]));
                return None;
            },
            Some(x) => {
                proof {
                    assert(d.take(i - start + 1).drop_last() =~= d.take(i - start));
                    assert forall|j: int| 0 <= j < i - start + 1 implies is_hex(
                        #[trigger] d.take(i - start + 1)[j],
                    ) by {
                        if j < i - start {
                            assert(is_hex(d.take(i - start)[j]));
                        }
                    }
                }
                v = v * 16 + x;
            },
        }
        i = i + 1;
    }
    assert(d.take(d.len() as int) =~= d);
    Some(v)
}

pub proof fn lemma_digits_value_prefix(s: Seq<u8>, n: int)
    requires
        0 <= n <= s.len(),
        forall|i: int| 0 <= i < s.len() ==> 0x30 <= #[trigger] s[i] <= 0x39,
    ensures
        digits_value(s.take(n)) <= digits_value(s),
    decreases s.len(),
{
    if n < s.len() {
        assert(s.drop_last().take(n) =~= s.take(n));
        assert forall|i: int| 0 <= i < s.drop_last().len() implies 0x30 <= #[trigger] s.drop_last()[i]
            <= 0x39 by {
            assert(s[i] == s.drop_last()[i]);
        }
        lemma_digits_value_prefix(s.drop_last(), n);
        assert(0x30 <= s[s.len() - 1]);
    } else {
        assert(s.take(n) =~= s);
    }
}

pub open spec fn all_digits(s: Seq<u8>) -> bool {
    forall|i: int| 0 <= i < s.len() ==> 0x30 <= #[trigger] s[i] <= 0x39
}

/// The run of digits at `pos`: its end, and its value unless that exceeds a
/// machine word.
pub fn read_digits(b: &[u8], pos: usize) -> (r: (usize, Option<usize>))
    requires
        pos <= b@.len(),
    ensures
        r.0 == digits_end(b@, pos as int),
        pos <= r.0 <= b@.len(),
        match r.1 {
            Some(v) => v == digits_value(b@.subrange(pos as int, r.0 as int)),
            None => digits_value(b@.subrange(pos as int, r.0 as int)) > usize::MAX,
        },
{
    let mut p: usize = pos;
    let mut v: Option<usize> = Some(0);
    while p < b.len() && b[p] >= 0x30 && b[p] <= 0x39
        invariant
            pos <= p <= b@.len(),
            digits_end(b@, pos as int) == digits_end(b@, p as int),
            forall|i: int| pos <= i < p ==> 0x30 <= #[trigger] b@[i] <= 0x39,
            match v {
                Some(x) => x == digits_value(b@.subrange(pos as int, p as int)),
                None => digits_value(b@.subrange(pos as int, p as int)) > usize::MAX,
            },
        decreases b@.len() - p,
    {
        let d: usize = (b[p] - 0x30) as usize;
        proof {
            let t = b@.subrange(pos as int, p + 1);
            assert(t.drop_last() =~= b@.subrange(pos as int, p as int));
        }
        v = match v {
            None => None,
            Some(x) => match x.checked_mul(10) {
                None => None,
                Some(y) => y.checked_add(d),
            },
        };
        p = p + 1;
    }
    (p, v)
}


/// The end of the run of digits that begins at `pos`.
pub fn skip_digits(b: &[u8], pos: usize) -> (r: usize)
    requires
        pos <= b@.len(),
    ensures
        r == digits_end(b@, pos as int),
        pos <= r <= b@.len(),
        forall|i: int| pos <= i < r ==> 0x30 <= #[trigger] b@[i] <= 0x39,
{
    let mut p: usize = pos;
    while p < b.len() && b[p] >= 0x30 && b[p] <= 0x39
        invariant
            pos <= p <= b@.len(),
            digits_end(b@, pos as int) == digits_end(b@, p as int),
            forall|i: int| pos <= i < p ==> 0x30 <= #[trigger] b@[i] <= 0x39,
        decreases b@.len() - p,
    {
        p = p + 1;
    }
    p
}

} // verus!
