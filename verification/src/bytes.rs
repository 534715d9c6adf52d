//! Numbers in bytes, in either order.
use vstd::arithmetic::power::{lemma_pow1, lemma_pow_adds, pow};
use vstd::prelude::*;

verus! {

/// The order of the bytes of a number: the least significant first, or the most
/// significant.
#[derive(Clone, Copy, PartialEq, Eq, Structural)]
pub enum ByteOrder {
    Little,
    Big,
}

/// The number that bytes make, the least significant first.
pub open spec fn little(bytes: Seq<u8>) -> nat
    decreases bytes.len(),
{
    if bytes.len() == 0 {
        0
    } else {
        bytes[0] as nat + 256 * little(bytes.drop_first())
    }
}

/// The number that bytes make.
pub open spec fn number(order: ByteOrder, bytes: Seq<u8>) -> nat {
    match order {
        ByteOrder::Little => little(bytes),
        ByteOrder::Big => little(bytes.reverse()),
    }
}

/// The bytes of a number, the least significant first.
pub open spec fn little_bytes(n: nat, width: nat) -> Seq<u8>
    decreases width,
{
    if width == 0 {
        Seq::empty()
    } else {
        seq![(n % 256) as u8] + little_bytes(n / 256, (width - 1) as nat)
    }
}

/// The bytes of a number.
pub open spec fn number_bytes(order: ByteOrder, n: nat, width: nat) -> Seq<u8> {
    match order {
        ByteOrder::Little => little_bytes(n, width),
        ByteOrder::Big => little_bytes(n, width).reverse(),
    }
}

/// A number of 32 bits with a sign, by its bits.
pub open spec fn signed(n: nat) -> int {
    if n < 0x8000_0000 {
        n as int
    } else {
        n - 0x1_0000_0000
    }
}

/// The bits of a number of 32 bits with a sign.
pub open spec fn bits_of(n: i32) -> nat {
    if n >= 0 {
        n as nat
    } else {
        (n + 0x1_0000_0000) as nat
    }
}

/// So many bytes make no larger number.
pub proof fn lemma_little_bound(bytes: Seq<u8>)
    ensures
        little(bytes) < pow(256, bytes.len()),
    decreases bytes.len(),
{
    if bytes.len() == 0 {
        assert(pow(256, 0) == 1) by {
            reveal(pow);
        }
    } else {
        let rest = bytes.drop_first();
        lemma_little_bound(rest);
        lemma_pow1(256);
        lemma_pow_adds(256, 1, rest.len());
        assert(pow(256, bytes.len()) == 256 * pow(256, rest.len()));
    }
}

/// Reading back the bytes of a number gives the number, where it fits.
pub proof fn law_number_round_trip(order: ByteOrder, n: nat, width: nat)
    requires
        n < pow(256, width),
    ensures
        number(order, number_bytes(order, n, width)) == n,
        number_bytes(order, n, width).len() == width,
{
    lemma_little_round_trip(n, width);
    let b = little_bytes(n, width);
    assert(b.reverse().reverse() =~= b);
}

proof fn lemma_little_round_trip(n: nat, width: nat)
    requires
        n < pow(256, width),
    ensures
        little(little_bytes(n, width)) == n,
        little_bytes(n, width).len() == width,
    decreases width,
{
    if width == 0 {
        assert(pow(256, 0) == 1) by {
            reveal(pow);
        }
    } else {
        let rest = (width - 1) as nat;
        lemma_pow1(256);
        lemma_pow_adds(256, 1, rest);
        assert(n / 256 < pow(256, rest)) by {
            assert(n < 256 * pow(256, rest));
        }
        lemma_little_round_trip(n / 256, rest);
        let b = little_bytes(n, width);
        assert(b.drop_first() =~= little_bytes(n / 256, rest));
    }
}

/// Eight bytes make the numbers of 64 bits.
proof fn lemma_eight_bytes(bytes: Seq<u8>)
    requires
        bytes.len() < 8,
    ensures
        little(bytes) * 256 + 255 <= u64::MAX,
{
    lemma_little_bound(bytes);
    assert(pow(256, bytes.len()) <= pow(256, 7)) by {
        vstd::arithmetic::power::lemma_pow_increases(256, bytes.len(), 7);
    }
    assert(pow(256, 7) == 0x100_0000_0000_0000) by {
        reveal_with_fuel(pow, 8);
    }
}

/// Reads the number that some bytes make.
pub fn read_number(bytes: &[u8], at: usize, width: usize, order: ByteOrder) -> (n: u64)
    requires
        at + width <= bytes@.len(),
        width <= 8,
    ensures
        n == number(order, bytes@.subrange(at as int, at + width)),
{
    let len: usize = bytes.len();
    let mut n: u64 = 0;
    let mut k: usize = 0;
    match order {
        ByteOrder::Little => {
            assert(bytes@.subrange(at + width, at + width) =~= Seq::<u8>::empty());
            while k < width
                invariant
                    k <= width <= 8,
                    at + width <= len == bytes@.len(),
                    n == little(bytes@.subrange(at + width - k, at + width)),
                decreases width - k,
            {
                let b: u8 = bytes[at + (width - 1 - k)];
                proof {
                    let rest = bytes@.subrange(at + width - k, at + width);
                    let more = bytes@.subrange(at + width - k - 1, at + width);
                    assert(more.drop_first() =~= rest);
                    assert(more[0] == b);
                    lemma_eight_bytes(rest);
                }
                n = n * 256 + b as u64;
                k = k + 1;
            }
        },
        ByteOrder::Big => {
            assert(bytes@.subrange(at as int, at as int).reverse() =~= Seq::<u8>::empty());
            while k < width
                invariant
                    k <= width <= 8,
                    at + width <= len == bytes@.len(),
                    n == little(bytes@.subrange(at as int, at + k).reverse()),
                decreases width - k,
            {
                let b: u8 = bytes[at + k];
                proof {
                    let rest = bytes@.subrange(at as int, at + k).reverse();
                    let more = bytes@.subrange(at as int, at + k + 1).reverse();
                    assert(more.drop_first() =~= rest);
                    assert(more[0] == b);
                    lemma_eight_bytes(rest);
                }
                n = n * 256 + b as u64;
                k = k + 1;
            }
        },
    }
    n
}

/// The number of 32 bits with a sign that some bits make.
pub fn to_signed(n: u64) -> (r: i32)
    requires
        n < 0x1_0000_0000,
    ensures
        r == signed(n as nat),
{
    if n < 0x8000_0000 {
        n as i32
    } else {
        (n as i64 - 0x1_0000_0000) as i32
    }
}

/// Four bytes make the numbers of 32 bits.
pub proof fn lemma_four_bytes(order: ByteOrder, bytes: Seq<u8>)
    requires
        bytes.len() == 4,
    ensures
        number(order, bytes) < 0x1_0000_0000,
{
    lemma_little_bound(bytes);
    lemma_little_bound(bytes.reverse());
    assert(pow(256, 4) == 0x1_0000_0000) by {
        reveal_with_fuel(pow, 5);
    }
}

/// Two bytes make the numbers of 16 bits.
pub proof fn lemma_two_bytes(order: ByteOrder, bytes: Seq<u8>)
    requires
        bytes.len() == 2,
    ensures
        number(order, bytes) < 0x1_0000,
{
    lemma_little_bound(bytes);
    lemma_little_bound(bytes.reverse());
    assert(pow(256, 2) == 0x1_0000) by {
        reveal_with_fuel(pow, 3);
    }
}

/// Copies bytes out.
pub fn copy_bytes(bytes: &[u8], from: usize, to: usize) -> (r: Vec<u8>)
    requires
        from <= to <= bytes@.len(),
    ensures
        r@ == bytes@.subrange(from as int, to as int),
{
    let mut r: Vec<u8> = Vec::new();
    let mut i: usize = from;
    while i < to
        invariant
            from <= i <= to <= bytes@.len(),
            r@ == bytes@.subrange(from as int, i as int),
        decreases to - i,
    {
        r.push(bytes[i]);
        i = i + 1;
        assert(r@ =~= bytes@.subrange(from as int, i as int));
    }
    r
}

/// Appends the four bytes of a number.
pub fn push_number(out: &mut Vec<u8>, n: u32, order: ByteOrder)
    ensures
        final(out)@ == old(out)@ + number_bytes(order, n as nat, 4),
{
    let a: u8 = (n % 256) as u8;
    let b: u8 = (n / 256 % 256) as u8;
    let c: u8 = (n / 256 / 256 % 256) as u8;
    let d: u8 = (n / 256 / 256 / 256 % 256) as u8;
    proof {
        reveal_with_fuel(little_bytes, 5);
        assert(little_bytes(n as nat, 4) =~= seq![a, b, c, d]);
    }
    match order {
        ByteOrder::Little => {
            out.push(a);
            out.push(b);
            out.push(c);
            out.push(d);
        },
        ByteOrder::Big => {
            out.push(d);
            out.push(c);
            out.push(b);
            out.push(a);
        },
    }
    assert(out@ =~= old(out)@ + number_bytes(order, n as nat, 4));
}

// ── Laws ─────────────────────────────────────────────────────────────

/// Bytes are positional: those behind others count for a power of 256, a byte
/// alone counts for itself, and the other order is that of the bytes reversed.
pub proof fn law_bytes_are_positional(a: Seq<u8>, b: Seq<u8>, x: u8)
    ensures
        number(ByteOrder::Little, a + b) == number(ByteOrder::Little, a) + pow(256, a.len())
            * number(ByteOrder::Little, b),
        number(ByteOrder::Little, seq![x]) == x,
        number(ByteOrder::Big, a) == number(ByteOrder::Little, a.reverse()),
    decreases a.len(),
{
    reveal_with_fuel(little, 2);
    assert(seq![x].drop_first() =~= Seq::<u8>::empty());
    if a.len() == 0 {
        assert(a + b =~= b);
        assert(pow(256, 0) == 1) by {
            reveal(pow);
        }
        assert(1 * little(b) == little(b)) by (nonlinear_arith);
    } else {
        let rest = a.drop_first();
        assert((a + b).drop_first() =~= rest + b);
        law_bytes_are_positional(rest, b, x);
        assert(pow(256, a.len()) == 256 * pow(256, rest.len())) by {
            reveal(pow);
        }
        let p = pow(256, rest.len());
        let n = little(b) as int;
        assert(256 * (p * n) == (256 * p) * n) by (nonlinear_arith);
    }
}

/// A number with a sign lies within 32 bits, differs from its bits by a multiple
/// of two to the 32nd, and is told by them.
pub proof fn law_sign_is_two_complement(n: nat, x: i32)
    requires
        n < 0x1_0000_0000,
    ensures
        -0x8000_0000 <= signed(n) < 0x8000_0000,
        (n - signed(n)) % 0x1_0000_0000 == 0,
        signed(bits_of(x)) == x,
        bits_of(x) < 0x1_0000_0000,
{
}

} // verus!
