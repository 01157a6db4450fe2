//! Little- and big-endian integers in byte sequences.
use vstd::arithmetic::power2::*;
use vstd::prelude::*;

verus! {

/// The integer whose base-256 digits are `b`, least significant first.
pub open spec fn le_value(b: Seq<u8>) -> nat
    decreases b.len(),
{
    if b.len() == 0 {
        0
    } else {
        b[0] as nat + 256 * le_value(b.skip(1))
    }
}

/// The integer whose base-256 digits are `b`, most significant first.
pub open spec fn be_value(b: Seq<u8>) -> nat
    decreases b.len(),
{
    if b.len() == 0 {
        0
    } else {
        b.last() as nat + 256 * be_value(b.drop_last())
    }
}

/// The `count` low base-256 digits of `n`, least significant first.
pub open spec fn le_bytes(n: nat, count: nat) -> Seq<u8>
    decreases count,
{
    if count == 0 {
        seq![]
    } else {
        seq![(n % 256) as u8] + le_bytes(n / 256, (count - 1) as nat)
    }
}

/// The two's complement reading of an unsigned integer of `bits` bits.
pub open spec fn signed(v: nat, bits: nat) -> int {
    if bits > 0 && v >= pow2((bits - 1) as nat) {
        v - pow2(bits)
    } else {
        v as int
    }
}

pub proof fn lemma_le_value_bound(b: Seq<u8>)
    ensures
        le_value(b) < pow2(8 * b.len()),
    decreases b.len(),
{
    lemma2_to64();
    if b.len() > 0 {
        lemma_le_value_bound(b.skip(1));
        lemma_pow2_adds(8, 8 * (b.len() - 1) as nat);
    }
}

pub proof fn lemma_be_value_bound(b: Seq<u8>)
    ensures
        be_value(b) < pow2(8 * b.len()),
    decreases b.len(),
{
    lemma2_to64();
    if b.len() > 0 {
        lemma_be_value_bound(b.drop_last());
        lemma_pow2_adds(8, 8 * (b.len() - 1) as nat);
    }
}

pub proof fn lemma_le_bytes_len(n: nat, count: nat)
    ensures
        le_bytes(n, count).len() == count,
    decreases count,
{
    if count > 0 {
        lemma_le_bytes_len(n / 256, (count - 1) as nat);
    }
}

/// Reading little-endian bytes gives back the integer they were written from.
pub proof fn lemma_le_round_trip(n: nat, count: nat)
    requires
        n < pow2(8 * count),
    ensures
        le_bytes(n, count).len() == count,
        le_value(le_bytes(n, count)) == n,
    decreases count,
{
    lemma2_to64();
    if count > 0 {
        lemma_pow2_adds(8, 8 * (count - 1) as nat);
        let p = pow2(8 * (count - 1) as nat);
        assert(n / 256 < p) by (nonlinear_arith)
            requires
                n < 256 * p,
        ;
        lemma_le_round_trip(n / 256, (count - 1) as nat);
        let b = le_bytes(n, count);
        assert(b.skip(1) =~= le_bytes(n / 256, (count - 1) as nat));
    }
}

/// Writing the integer read from little-endian bytes gives them back.
pub proof fn lemma_le_bytes_of_value(b: Seq<u8>)
    ensures
        le_bytes(le_value(b), b.len()) == b,
    decreases b.len(),
{
    if b.len() > 0 {
        lemma_le_bytes_of_value(b.skip(1));
        assert(seq![b[0]] + b.skip(1) =~= b);
    } else {
        assert(le_bytes(le_value(b), b.len()) =~= b);
    }
}

/// Whether two byte strings are the same.
pub fn same_bytes(a: &[u8], b: &[u8]) -> (r: bool)
    ensures
        r == (a@ == b@),
{
    if a.len() != b.len() {
        return false;
    }
    let mut i: usize = 0;
    while i < a.len()
        invariant
            a@.len() == b@.len(),
            i <= a@.len(),
            forall|j: int| 0 <= j < i ==> a@[j] == b@[j],
        decreases a@.len() - i,
    {
        if a[i] != b[i] {
            return false;
        }
        i = i + 1;
    }
    assert(a@ =~= b@);
    true
}

/// Reads up to eight little-endian bytes.
pub fn read_le(b: &[u8]) -> (r: u64)
    requires
        b@.len() <= 8,
    ensures
        r == le_value(b@),
{
    let mut i: usize = b.len();
    let mut v: u64 = 0;
    proof {
        assert(b@.skip(b@.len() as int).len() == 0);
        lemma2_to64();
        lemma2_to64_rest();
    }
    while i > 0
        invariant
            i <= b@.len() <= 8,
            v == le_value(b@.skip(i as int)),
        decreases i,
    {
        i = i - 1;
        proof {
            let rest = b@.skip(i as int);
            assert(rest.skip(1) =~= b@.skip(i + 1));
            lemma_le_value_bound(rest);
            lemma2_to64();
            lemma2_to64_rest();
            if rest.len() < 8 {
                lemma_pow2_strictly_increases(8 * rest.len(), 64);
            }
        }
        v = v * 256 + b[i] as u64;
    }
    assert(b@.skip(0) =~= b@);
    v
}

/// Reads up to eight big-endian bytes.
pub fn read_be(b: &[u8]) -> (r: u64)
    requires
        b@.len() <= 8,
    ensures
        r == be_value(b@),
{
    let mut i: usize = 0;
    let mut v: u64 = 0;
    while i < b.len()
        invariant
            i <= b@.len() <= 8,
            v == be_value(b@.take(i as int)),
        decreases b@.len() - i,
    {
        proof {
            let more = b@.take(i + 1);
            assert(more.drop_last() =~= b@.take(i as int));
            lemma_be_value_bound(more);
            lemma2_to64();
            lemma2_to64_rest();
            if more.len() < 8 {
                lemma_pow2_strictly_increases(8 * more.len(), 64);
            }
        }
        v = v * 256 + b[i] as u64;
        i = i + 1;
    }
    assert(b@.take(b@.len() as int) =~= b@);
    v
}

/// Appends the `count` low bytes of `n`, least significant first.
pub fn push_le(out: &mut Vec<u8>, n: u64, count: usize)
    ensures
        final(out)@ == old(out)@ + le_bytes(n as nat, count as nat),
{
    let ghost start = out@;
    let mut rest: u64 = n;
    let mut i: usize = 0;
    assert(start + le_bytes(n as nat, count as nat) =~= start + le_bytes(
        n as nat,
        count as nat,
    ));
    while i < count
        invariant
            i <= count,
            start + le_bytes(n as nat, count as nat) == out@ + le_bytes(
                rest as nat,
                (count - i) as nat,
            ),
        decreases count - i,
    {
        let ghost before = out@;
        out.push((rest % 256) as u8);
        proof {
            let tail = le_bytes(rest as nat / 256, (count - i - 1) as nat);
            assert(before + (seq![(rest as nat % 256) as u8] + tail) =~= out@ + tail);
        }
        rest = rest / 256;
        i = i + 1;
    }
    assert(out@ + le_bytes(rest as nat, 0) =~= out@);
}

} // verus!
