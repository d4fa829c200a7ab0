//! Small numeric helpers for message passing.
use vstd::prelude::*;
use vstd::arithmetic::power2::pow2;
use vstd::arithmetic::power::{pow, lemma_pow_positive, lemma_pow_increases};
use vstd::bits::{lemma_usize_pow2_no_overflow, lemma_usize_shl_is_mul};

verus! {

/// `n` is the exponent of the smallest power of two that is at least `x`.
pub open spec fn is_ceil_log2(x: nat, n: nat) -> bool {
    &&& x <= pow2(n)
    &&& n > 0 ==> pow2((n - 1) as nat) < x
}

/// Compute the log-base-two of the next power of two: 8 -> 3, 9 -> 4.
pub fn ceil_log2(x: usize) -> (n: usize)
    requires
        x <= pow2((usize::BITS - 1) as nat),
    ensures
        is_ceil_log2(x as nat, n as nat),
{
    let mut n: usize = 0;
    proof {
        lemma_usize_pow2_no_overflow(0);
        lemma_usize_shl_is_mul(1, 0);
    }
    while (1usize << n) < x
        invariant
            n < usize::BITS,
            x <= pow2((usize::BITS - 1) as nat),
            (1usize << n) == pow2(n as nat),
            n > 0 ==> pow2((n - 1) as nat) < x,
        decreases usize::BITS - n,
    {
        proof {
            if n + 1 >= usize::BITS {
                assert(n == usize::BITS - 1);
                assert(false);
            }
        }
        n += 1;
        proof {
            lemma_usize_pow2_no_overflow(n as nat);
            lemma_usize_shl_is_mul(1, n);
        }
    }
    n
}

/// The number of bytes in a `usize`.
pub open spec fn usize_width() -> nat {
    (usize::BITS / 8) as nat
}

/// The number that bytes stand for when read in little-endian order: the
/// first byte is the least significant.
pub open spec fn le_value(bytes: Seq<u8>) -> nat
    decreases bytes.len(),
{
    if bytes.len() == 0 {
        0
    } else {
        bytes[0] as nat + 256 * le_value(bytes.drop_first())
    }
}

/// A `usize` ranges over the numbers below 256 to the power of its width.
proof fn lemma_usize_range()
    ensures
        pow(256, usize_width()) == usize::MAX + 1,
        usize_width() == 4 || usize_width() == 8,
{
    reveal(pow);
    assert(pow(256, 0) == 1);
    assert(pow(256, 1) == 0x100);
    assert(pow(256, 2) == 0x1_0000);
    assert(pow(256, 3) == 0x100_0000);
    assert(pow(256, 4) == 0x1_0000_0000);
    assert(pow(256, 5) == 0x100_0000_0000);
    assert(pow(256, 6) == 0x1_0000_0000_0000);
    assert(pow(256, 7) == 0x100_0000_0000_0000);
    assert(pow(256, 8) == 0x1_0000_0000_0000_0000);
    if usize::BITS == 32 {
        assert(usize_width() == 4);
    } else {
        assert(usize_width() == 8);
    }
}

proof fn lemma_pow_step(e: nat)
    ensures
        pow(256, e + 1) == 256 * pow(256, e),
        pow(256, e) > 0,
{
    reveal(pow);
    lemma_pow_positive(256, e);
    assert(pow(256, e + 1) == 256 * pow(256, e));
}

/// Appending a byte adds it at the weight of its position.
proof fn lemma_le_value_push(s: Seq<u8>, b: u8)
    ensures
        le_value(s.push(b)) == le_value(s) + pow(256, s.len()) * b,
    decreases s.len(),
{
    reveal(pow);
    if s.len() == 0 {
        assert(s.push(b).drop_first() =~= Seq::<u8>::empty());
        assert(le_value(Seq::<u8>::empty()) == 0);
        assert(s.push(b)[0] == b);
    } else {
        lemma_le_value_push(s.drop_first(), b);
        assert(s.push(b).drop_first() =~= s.drop_first().push(b));
        assert(s.push(b)[0] == s[0]);
        lemma_pow_step((s.len() - 1) as nat);
        let p = pow(256, (s.len() - 1) as nat);
        assert(256 * (le_value(s.drop_first()) + p * b) == 256 * le_value(s.drop_first()) + (256 * p) * b)
            by (nonlinear_arith);
    }
}

/// Bytes stand for a number below 256 to the power of their count.
proof fn lemma_le_value_bound(s: Seq<u8>)
    ensures
        le_value(s) < pow(256, s.len()),
    decreases s.len(),
{
    reveal(pow);
    if s.len() > 0 {
        lemma_le_value_bound(s.drop_first());
        lemma_pow_step((s.len() - 1) as nat);
    }
}

/// The little-endian bytes of a `usize`, as `usize::to_le_bytes` gives
/// them.
pub fn usize_to_le_bytes(n: usize) -> (v: Vec<u8>)
    ensures
        v@.len() == usize_width(),
        le_value(v@) == n,
{
    let width: usize = (usize::BITS / 8) as usize;
    let mut v: Vec<u8> = Vec::new();
    let mut x: usize = n;
    let mut i: usize = 0;
    proof {
        lemma_usize_range();
        reveal_with_fuel(pow, 1);
    }
    while i < width
        invariant
            width == usize_width(),
            i <= width,
            v@.len() == i,
            n == le_value(v@) + pow(256, i as nat) * x,
            x < pow(256, (width - i) as nat),
        decreases width - i,
    {
        let b: u8 = (x % 256) as u8;
        let y: usize = x / 256;
        proof {
            let p = pow(256, i as nat);
            let q = pow(256, (width - i - 1) as nat);
            lemma_pow_step(i as nat);
            lemma_pow_step((width - i - 1) as nat);
            assert((width - i - 1) as nat + 1 == (width - i) as nat);
            lemma_le_value_push(v@, b);
            assert(x == 256 * y + b);
            assert(p * x == p * b + (256 * p) * y) by (nonlinear_arith)
                requires
                    x == 256 * y + b,
            ;
            assert(y < q) by (nonlinear_arith)
                requires
                    x == 256 * y + b,
                    x < 256 * q,
                    b >= 0,
            ;
        }
        v.push(b);
        x = y;
        i = i + 1;
    }
    proof {
        assert(pow(256, 0) == 1);
    }
    v
}

/// The `usize` that little-endian bytes stand for, as `usize::from_le_bytes`
/// reads them.
pub fn usize_from_le_bytes(bytes: &[u8]) -> (n: usize)
    requires
        bytes@.len() == usize_width(),
    ensures
        n == le_value(bytes@),
{
    let len: usize = bytes.len();
    let mut acc: usize = 0;
    let mut i: usize = len;
    proof {
        lemma_usize_range();
        assert(bytes@.subrange(len as int, len as int) =~= Seq::<u8>::empty());
    }
    while i > 0
        invariant
            len == bytes@.len(),
            len == usize_width(),
            pow(256, usize_width()) == usize::MAX + 1,
            i <= len,
            acc == le_value(bytes@.subrange(i as int, len as int)),
        decreases i,
    {
        let ghost rest = bytes@.subrange(i as int, len as int);
        let ghost next = bytes@.subrange(i - 1, len as int);
        proof {
            assert(next.drop_first() =~= rest);
            assert(next[0] == bytes@[i - 1]);
            lemma_le_value_bound(next);
            lemma_pow_increases(256, next.len(), usize_width());
        }
        acc = bytes[i - 1] as usize + 256 * acc;
        i = i - 1;
    }
    proof {
        assert(bytes@.subrange(0, len as int) =~= bytes@);
    }
    acc
}

/// Bytes of one length that stand for the same number are the same bytes:
/// so writing a `usize` and reading it back gives the number that was
/// written, and reading bytes and writing the number back gives the bytes
/// that were read.
pub proof fn law_le_value_determines_bytes(s: Seq<u8>, t: Seq<u8>)
    requires
        s.len() == t.len(),
        le_value(s) == le_value(t),
    ensures
        s == t,
    decreases s.len(),
{
    if s.len() > 0 {
        let x = le_value(s.drop_first());
        let y = le_value(t.drop_first());
        assert(s[0] as int + 256 * x == t[0] as int + 256 * y);
        assert(x == y && s[0] == t[0]) by (nonlinear_arith)
            requires
                s[0] as int + 256 * x == t[0] as int + 256 * y,
                0 <= s[0] < 256,
                0 <= t[0] < 256,
                x >= 0,
                y >= 0,
        ;
        law_le_value_determines_bytes(s.drop_first(), t.drop_first());
        assert(s =~= t) by {
            assert forall|i: int| 0 <= i < s.len() implies s[i] == t[i] by {
                if i > 0 {
                    assert(s[i] == s.drop_first()[i - 1]);
                    assert(t[i] == t.drop_first()[i - 1]);
                }
            }
        }
    } else {
        assert(s =~= t);
    }
}

} // verus!
