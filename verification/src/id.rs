//! Node and item identifiers, and how far apart two of them are.

use vstd::arithmetic::power2::*;
use vstd::prelude::*;

verus! {

/// A 160 bit identifier: of a node, of an info hash, or of a stored item.
///
/// The bits are kept most significant first: `hi` holds the first 128 of them, `lo` the last 32.
#[derive(Clone, Copy, Debug, PartialEq, Eq, PartialOrd, Ord, Hash, Structural)]
pub struct Id {
    pub hi: u128,
    pub lo: u32,
}

/// The number that a sequence of bytes spells, most significant byte first.
pub open spec fn big_endian(bytes: Seq<u8>) -> nat
    decreases bytes.len(),
{
    if bytes.len() == 0 {
        0
    } else {
        big_endian(bytes.drop_last()) * 256 + bytes.last() as nat
    }
}

/// The identifier that twenty bytes spell.
pub open spec fn id_of_bytes(bytes: Seq<u8>) -> Id {
    Id {
        hi: big_endian(bytes.subrange(0, 16)) as u128,
        lo: big_endian(bytes.subrange(16, 20)) as u32,
    }
}

/// How many bits it takes to write a number.
pub open spec fn bit_length(x: nat) -> nat
    decreases x,
{
    if x == 0 {
        0
    } else {
        1 + bit_length(x / 2)
    }
}

/// A number below the power of two with `bits` zeros takes at most `bits` bits.
proof fn lemma_bit_length_bound(x: nat, bits: nat)
    requires
        x < pow2(bits),
    ensures
        bit_length(x) <= bits,
    decreases bits,
{
    if x > 0 {
        if bits == 0 {
            lemma2_to64();
        } else {
            lemma_pow2_unfold(bits);
            lemma_bit_length_bound(x / 2, (bits - 1) as nat);
        }
    }
}

/// How many bits it takes to write `x`.
fn count_bits(x: u128) -> (r: u8)
    ensures
        r == bit_length(x as nat),
        r <= 128,
{
    proof {
        lemma_u128_bits(x);
    }
    let mut rest: u128 = x;
    let mut count: u8 = 0;
    while rest > 0
        invariant
            count + bit_length(rest as nat) == bit_length(x as nat),
            bit_length(x as nat) <= 128,
        decreases rest,
    {
        rest = rest / 2;
        count = count + 1;
    }
    count
}

proof fn lemma_u128_bits(x: u128)
    ensures
        bit_length(x as nat) <= 128,
{
    lemma_word_sizes();
    lemma_bit_length_bound(x as nat, 128);
}

proof fn lemma_u32_bits(x: u32)
    ensures
        bit_length(x as nat) <= 32,
{
    lemma_word_sizes();
    lemma_bit_length_bound(x as nat, 32);
}

/// Up to `size` bytes spell a number below the power of two with eight times `size` zeros.
proof fn lemma_big_endian_bound(bytes: Seq<u8>, size: nat)
    requires
        bytes.len() <= size,
    ensures
        big_endian(bytes) < pow2(8 * size),
    decreases size,
{
    lemma2_to64();
    if bytes.len() == 0 {
        lemma_pow2_pos(8 * size);
    } else {
        let n = (size - 1) as nat;
        lemma_big_endian_bound(bytes.drop_last(), n);
        lemma_pow2_adds(8 * n, 8);
        assert(8 * size == 8 * n + 8);
    }
}

/// The sizes of the two integers that make up an identifier.
proof fn lemma_word_sizes()
    ensures
        pow2(32) == 0x1_0000_0000,
        pow2(128) == 0x1_0000_0000_0000_0000_0000_0000_0000_0000,
{
    lemma2_to64();
    lemma2_to64_rest();
    lemma_pow2_adds(64, 64);
    assert(0x1_0000_0000_0000_0000int * 0x1_0000_0000_0000_0000int
        == 0x1_0000_0000_0000_0000_0000_0000_0000_0000int) by (nonlinear_arith);
}

impl Id {
    /// The identifier that twenty bytes spell.
    pub fn from_bytes(bytes: &[u8; 20]) -> (r: Id)
        ensures
            r == id_of_bytes(bytes@),
    {
        let mut hi: u128 = 0;
        let mut i: usize = 0;
        while i < 16
            invariant
                i <= 16,
                bytes@.len() == 20,
                hi == big_endian(bytes@.subrange(0, i as int)),
            decreases 16 - i,
        {
            proof {
                let next = bytes@.subrange(0, i as int + 1);
                assert(next.drop_last() =~= bytes@.subrange(0, i as int));
                lemma_big_endian_bound(next, 16);
                lemma_word_sizes();
            }
            hi = hi * 256 + bytes[i] as u128;
            i = i + 1;
        }
        let mut lo: u32 = 0;
        let mut j: usize = 16;
        while j < 20
            invariant
                16 <= j <= 20,
                bytes@.len() == 20,
                lo == big_endian(bytes@.subrange(16, j as int)),
            decreases 20 - j,
        {
            proof {
                let next = bytes@.subrange(16, j as int + 1);
                assert(next.drop_last() =~= bytes@.subrange(16, j as int));
                lemma_big_endian_bound(next, 4);
                lemma_word_sizes();
            }
            lo = lo * 256 + bytes[j] as u32;
            j = j + 1;
        }
        Id { hi, lo }
    }

    /// The distance between two identifiers: their exclusive or, read as a number.
    pub open spec fn metric(self, other: Id) -> int {
        (self.hi ^ other.hi) as int * 0x1_0000_0000 + (self.lo ^ other.lo) as int
    }

    /// How many bits it takes to write the distance between two identifiers: 0 for equal ones, at
    /// most 160. Identifiers at one such distance from a node belong in one bucket of its routing
    /// table.
    pub open spec fn spec_distance(self, other: Id) -> nat {
        if self.hi != other.hi {
            32 + bit_length((self.hi ^ other.hi) as nat)
        } else {
            bit_length((self.lo ^ other.lo) as nat)
        }
    }

    /// How many bits it takes to write the distance between two identifiers.
    pub fn distance(&self, other: &Id) -> (r: u8)
        ensures
            r == self.spec_distance(*other),
            r <= 160,
    {
        proof {
            lemma_u32_bits(self.lo ^ other.lo);
        }
        if self.hi != other.hi {
            32 + count_bits(self.hi ^ other.hi)
        } else {
            count_bits((self.lo ^ other.lo) as u128)
        }
    }

    /// Whether this identifier is nearer to `target` than `other` is.
    pub fn nearer(&self, other: &Id, target: &Id) -> (r: bool)
        ensures
            r == (self.metric(*target) < other.metric(*target)),
    {
        let mine: u128 = self.hi ^ target.hi;
        let theirs: u128 = other.hi ^ target.hi;
        if mine != theirs {
            mine < theirs
        } else {
            (self.lo ^ target.lo) < (other.lo ^ target.lo)
        }
    }
}

/// An identifier is at no distance from itself, and from nothing else.
pub proof fn law_metric_identity(a: Id, b: Id)
    ensures
        a.metric(b) >= 0,
        a.metric(b) == 0 <==> a == b,
        a.spec_distance(b) == 0 <==> a == b,
{
    let (x, y) = (a.hi, b.hi);
    let (p, q) = (a.lo, b.lo);
    assert(x ^ y == 0 <==> x == y) by (bit_vector);
    assert(p ^ q == 0 <==> p == q) by (bit_vector);
}

/// Byte strings of one length that spell the same number are the same.
proof fn lemma_big_endian_injective(a: Seq<u8>, b: Seq<u8>)
    requires
        a.len() == b.len(),
        big_endian(a) == big_endian(b),
    ensures
        a == b,
    decreases a.len(),
{
    if a.len() > 0 {
        lemma_big_endian_injective(a.drop_last(), b.drop_last());
        assert(a =~= a.drop_last().push(a.last()));
        assert(b =~= b.drop_last().push(b.last()));
    } else {
        assert(a =~= b);
    }
}

/// Different bytes spell different identifiers, and the first sixteen bytes and the last four spell
/// the two numbers that an identifier is made of.
pub proof fn law_identifiers_keep_every_byte(a: Seq<u8>, b: Seq<u8>)
    requires
        a.len() == 20,
        b.len() == 20,
    ensures
        id_of_bytes(a) == id_of_bytes(b) <==> a == b,
        id_of_bytes(a).hi == big_endian(a.take(16)),
        id_of_bytes(a).lo == big_endian(a.skip(16)),
{
    lemma_word_sizes();
    assert(a.take(16) =~= a.subrange(0, 16));
    assert(a.skip(16) =~= a.subrange(16, 20));
    lemma_big_endian_bound(a.subrange(0, 16), 16);
    lemma_big_endian_bound(a.subrange(16, 20), 4);
    lemma_big_endian_bound(b.subrange(0, 16), 16);
    lemma_big_endian_bound(b.subrange(16, 20), 4);
    if id_of_bytes(a) == id_of_bytes(b) {
        lemma_big_endian_injective(a.subrange(0, 16), b.subrange(0, 16));
        lemma_big_endian_injective(a.subrange(16, 20), b.subrange(16, 20));
        assert(a =~= a.subrange(0, 16) + a.subrange(16, 20));
        assert(b =~= b.subrange(0, 16) + b.subrange(16, 20));
    }
}

/// The distance is the same both ways.
pub proof fn law_metric_symmetric(a: Id, b: Id)
    ensures
        a.metric(b) == b.metric(a),
        a.spec_distance(b) == b.spec_distance(a),
{
    let (x, y) = (a.hi, b.hi);
    let (p, q) = (a.lo, b.lo);
    assert(x ^ y == y ^ x) by (bit_vector);
    assert(p ^ q == q ^ p) by (bit_vector);
}

/// Of two identifiers, the one that agrees with a third on more of the first bits is nearer to it:
/// the first 128 bits decide, and the last 32 where those differ from the third's in the same way.
pub proof fn law_metric_goes_by_the_first_bits(a: Id, b: Id, target: Id)
    ensures
        (a.hi ^ target.hi) < (b.hi ^ target.hi) ==> a.metric(target) < b.metric(target),
        a.hi == b.hi ==> (a.metric(target) < b.metric(target) <==> (a.lo ^ target.lo) < (b.lo
            ^ target.lo)),
{
}

/// A number is between the powers of two that its bits say.
proof fn lemma_bit_length(x: nat)
    requires
        x > 0,
    ensures
        bit_length(x) > 0,
        pow2((bit_length(x) - 1) as nat) <= x < pow2(bit_length(x)),
    decreases x,
{
    lemma2_to64();
    if x > 1 {
        lemma_bit_length(x / 2);
        let n = bit_length(x / 2);
        lemma_pow2_unfold(n);
        lemma_pow2_unfold(n + 1);
    } else {
        reveal_with_fuel(bit_length, 2);
    }
}

/// The bit distance of two different identifiers says between which powers of two the distance is.
pub proof fn law_bit_distance_bounds_the_metric(a: Id, b: Id)
    requires
        a != b,
    ensures
        a.spec_distance(b) > 0,
        pow2((a.spec_distance(b) - 1) as nat) <= a.metric(b) < pow2(a.spec_distance(b)),
{
    let (x, y) = (a.hi, b.hi);
    let (p, q) = (a.lo, b.lo);
    assert(x ^ y == 0 <==> x == y) by (bit_vector);
    assert(p ^ q == 0 <==> p == q) by (bit_vector);
    lemma_word_sizes();
    if x != y {
        let h = (x ^ y) as nat;
        lemma_bit_length(h);
        let n = bit_length(h);
        lemma_pow2_adds(32, n);
        lemma_pow2_adds(32, (n - 1) as nat);
        assert((32 + n - 1) as nat == 32 + (n - 1) as nat);
    } else {
        lemma_bit_length((p ^ q) as nat);
    }
}

/// No two identifiers are equally far from a third.
pub proof fn law_metric_unidirectional(a: Id, b: Id, target: Id)
    ensures
        a.metric(target) == b.metric(target) ==> a == b,
{
    let (x, y, t) = (a.hi, b.hi, target.hi);
    let (p, q, u) = (a.lo, b.lo, target.lo);
    assert(x ^ t == y ^ t ==> x == y) by (bit_vector);
    assert(p ^ u == q ^ u ==> p == q) by (bit_vector);
}

} // verus!
