//! The bits of a 32-bit word, most significant first, and the bytes that
//! they make up again.
use vstd::prelude::*;
use vstd::arithmetic::div_mod::{lemma_breakdown, lemma_div_denominator};
use crate::bytes::{le_bytes, pow256};

verus! {

/// `base` to the power `e`.
pub open spec fn int_pow(base: nat, e: nat) -> nat
    decreases e,
{
    if e == 0 {
        1
    } else {
        base * int_pow(base, (e - 1) as nat)
    }
}

/// Bit `x` of `n` (bit 0 is the least significant).
pub open spec fn bit(n: nat, x: nat) -> nat {
    (n / int_pow(2, x)) % 2
}

/// The value of the bits `y[start]`, `y[start - 1]`, ..., `p` of them, read
/// least significant first: an entry counts as a one bit exactly when it is 1.
pub open spec fn bits_value(y: Seq<u8>, start: int, p: nat) -> nat
    decreases p,
{
    if p == 0 {
        0
    } else {
        let q = (p - 1) as nat;
        bits_value(y, start, q) + if y[start - q] == 1 {
            int_pow(2, q)
        } else {
            0
        }
    }
}

/// `u32::pow`: `base` to the power `exp`.
#[verifier::external_body]
fn u32_pow(base: u32, exp: u32) -> (r: u32)
    requires
        int_pow(base as nat, exp as nat) <= u32::MAX,
    ensures
        r == int_pow(base as nat, exp as nat),
{
    base.pow(exp)
}

/// `u8::pow`: `base` to the power `exp`.
#[verifier::external_body]
fn u8_pow(base: u8, exp: u32) -> (r: u8)
    requires
        int_pow(base as nat, exp as nat) <= u8::MAX,
    ensures
        r == int_pow(base as nat, exp as nat),
{
    base.pow(exp)
}

pub proof fn lemma_int_pow_pos(b: nat, e: nat)
    requires
        b > 0,
    ensures
        int_pow(b, e) > 0,
    decreases e,
{
    if e > 0 {
        lemma_int_pow_pos(b, (e - 1) as nat);
        assert(b * int_pow(b, (e - 1) as nat) > 0) by (nonlinear_arith)
            requires
                b > 0,
                int_pow(b, (e - 1) as nat) > 0,
        ;
    }
}

pub proof fn lemma_two_pow_mono(a: nat, b: nat)
    requires
        a <= b,
    ensures
        int_pow(2, a) <= int_pow(2, b),
    decreases b,
{
    if a < b {
        lemma_two_pow_mono(a, (b - 1) as nat);
        lemma_int_pow_pos(2, (b - 1) as nat);
    }
}

pub proof fn lemma_two_pow_values()
    ensures
        int_pow(2, 7) == 0x80,
        int_pow(2, 8) == 0x100,
        int_pow(2, 31) == 0x8000_0000,
        int_pow(2, 32) == 0x1_0000_0000,
{
    reveal_with_fuel(int_pow, 33);
}

/// Splitting off bit `x`: the low `x + 1` bits of `n` are bit `x` times
/// `2^x` plus the low `x` bits.
proof fn lemma_low_bits_split(n: nat, x: nat)
    ensures
        n % int_pow(2, x + 1) == int_pow(2, x) * bit(n, x) + n % int_pow(2, x),
        bit(n, x) <= 1,
        n % int_pow(2, x) < int_pow(2, x),
{
    let y = int_pow(2, x);
    lemma_int_pow_pos(2, x);
    assert(int_pow(2, x + 1) == y * 2);
    lemma_breakdown(n as int, y as int, 2);
}

/// The binary digits of `i`, most significant first: entry `k` is bit
/// `31 - k` of `i`, as 0 or 1.
pub fn u32_to_binary(i: u32) -> (res: [u8; 32])
    ensures
        forall|k: int| 0 <= k < 32 ==> #[trigger] res[k] as nat == bit(i as nat, (31 - k) as nat),
{
    let ghost n = i as nat;
    let mut i = i;
    let mut res: [u8; 32] = [0; 32];
    let mut x: u32 = 31;
    proof {
        lemma_two_pow_values();
        assert(n % int_pow(2, 32) == n);
    }
    loop
        invariant_except_break
            i as nat == n % int_pow(2, x as nat + 1),
            forall|k: int| 31 - x <= k < 32 ==> res[k] == 0,
        invariant
            x <= 31,
            int_pow(2, 31) == 0x8000_0000,
            forall|k: int| 0 <= k < 31 - x ==> res[k] as nat == #[trigger] bit(n, (31 - k) as nat),
        ensures
            forall|k: int| 0 <= k < 32 ==> #[trigger] res[k] as nat == bit(n, (31 - k) as nat),
        decreases x,
    {
        proof {
            lemma_two_pow_mono(x as nat, 31);
            lemma_low_bits_split(n, x as nat);
        }
        let p = u32_pow(2, x);
        proof {
            let y = int_pow(2, x as nat);
            if bit(n, x as nat) == 0 {
                assert(y * 0 == 0);
            } else {
                assert(y * 1 == y);
            }
        }
        if p <= i {
            res[(31 - x) as usize] = 1;
            i -= p;
        }
        assert(res[31 - x] as nat == bit(n, x as nat));
        if x == 0 {
            break;
        }
        x -= 1;
    }
    res
}

/// Packs 32 binary digits, most significant first (as `u32_to_binary` gives
/// them), into 4 bytes, least significant byte first: byte `i` is made of the
/// entries `31 - 8i` (its lowest bit) down to `24 - 8i` (its highest bit), an
/// entry counting as a one bit exactly when it is 1.
pub fn bits_to_le_bytes(y: [u8; 32]) -> (z: [u8; 4])
    ensures
        forall|i: int| 0 <= i < 4 ==> z[i] as nat == #[trigger] bits_value(y@, 31 - 8 * i, 8),
{
    let mut z: [u8; 4] = [0; 4];
    let mut j: usize = y.len() - 1;
    proof {
        lemma_two_pow_values();
    }
    for i in 0..4
        invariant
            i < 4 ==> j == 31 - 8 * i,
            int_pow(2, 8) == 0x100,
            forall|m: int| 0 <= m < i ==> z[m] as nat == #[trigger] bits_value(y@, 31 - 8 * m, 8),
    {
        let mut s: u8 = 0;
        let ghost start = j as int;
        let mut p: u32 = 0;
        while p < 8
            invariant_except_break
                j == start - p,
            invariant
                0 <= start - 7,
                start == 31 - 8 * i,
                p <= 8,
                int_pow(2, 8) == 0x100,
                s as nat == bits_value(y@, start, p as nat),
                s as nat <= int_pow(2, p as nat) - 1,
                forall|m: int| 0 <= m < i ==> z[m] as nat == #[trigger] bits_value(y@, 31 - 8 * m, 8),
            ensures
                s as nat == bits_value(y@, start, 8),
                i < 3 ==> j == start - 8,
            decreases 8 - p,
        {
            proof {
                lemma_two_pow_mono(p as nat, 7);
                lemma_two_pow_mono(p as nat + 1, 8);
                lemma_int_pow_pos(2, p as nat);
            }
            if y[j] == 1 {
                s += u8_pow(2, p);
            }
            p += 1;
            assert(j == start - (p - 1));
            if j == 0 {
                break;
            }
            j -= 1;
        }
        z[i] = s;
    }
    z
}

pub proof fn lemma_two_pow_adds(a: nat, b: nat)
    ensures
        int_pow(2, a + b) == int_pow(2, a) * int_pow(2, b),
    decreases b,
{
    if b > 0 {
        let b1 = (b - 1) as nat;
        lemma_two_pow_adds(a, b1);
        let x = int_pow(2, a);
        let y = int_pow(2, b1);
        assert(int_pow(2, a + b1) == x * y);
        assert(((a + b) - 1) as nat == a + b1);
        assert(int_pow(2, a + b) == 2 * int_pow(2, a + b1));
        assert(int_pow(2, b) == 2 * y);
        assert(2 * (x * y) == x * (2 * y)) by (nonlinear_arith);
    } else {
        assert(int_pow(2, 0) == 1);
        assert(a + b == a);
        assert(int_pow(2, a) * 1 == int_pow(2, a));
    }
}

proof fn lemma_pow256_two_pow(i: nat)
    ensures
        pow256(i) == int_pow(2, 8 * i),
    decreases i,
{
    if i > 0 {
        lemma_pow256_two_pow((i - 1) as nat);
        lemma_two_pow_values();
        lemma_two_pow_adds(8, 8 * (i - 1) as nat);
        assert(8 + 8 * (i - 1) as nat == 8 * i);
    }
}

/// Byte `i` of the little-endian bytes of `v` is `v / 256^i % 256`.
proof fn lemma_le_bytes_index(v: nat, n: nat, i: nat)
    requires
        i < n,
    ensures
        le_bytes(v, n)[i as int] == ((v / pow256(i)) % 256) as u8,
    decreases n,
{
    crate::bytes::lemma_le_bytes_len(v / 256, (n - 1) as nat);
    if i == 0 {
        assert(pow256(0) == 1);
        assert(v / 1 == v);
    } else {
        lemma_le_bytes_index(v / 256, (n - 1) as nat, (i - 1) as nat);
        crate::bytes::lemma_pow256_pos((i - 1) as nat);
        lemma_div_denominator(v as int, 256, pow256((i - 1) as nat) as int);
        assert(le_bytes(v, n)[i as int] == le_bytes(v / 256, (n - 1) as nat)[i - 1]);
    }
}

/// The bits of `m` below `p`, laid out downwards from `start`, add up to the
/// low `p` bits of `m`.
proof fn lemma_bits_value_low(y: Seq<u8>, start: int, p: nat, m: nat)
    requires
        forall|q: int| 0 <= q < p ==> y[start - q] as nat == #[trigger] bit(m, q as nat),
    ensures
        bits_value(y, start, p) == m % int_pow(2, p),
    decreases p,
{
    if p == 0 {
        assert(m % 1 == 0);
    } else {
        let q = (p - 1) as nat;
        lemma_bits_value_low(y, start, q, m);
        lemma_low_bits_split(m, q);
        assert(y[start - q] as nat == bit(m, q));
        if bit(m, q) == 0 {
            assert(int_pow(2, q) * 0 == 0);
        } else {
            assert(int_pow(2, q) * 1 == int_pow(2, q));
        }
    }
}

/// Packing the binary digits of a word (`u32_to_binary`) into bytes
/// (`bits_to_le_bytes`) gives the word's little-endian bytes.
pub proof fn lemma_binary_to_le_bytes(n: u32, y: Seq<u8>)
    requires
        y.len() == 32,
        forall|k: int| 0 <= k < 32 ==> y[k] as nat == #[trigger] bit(n as nat, (31 - k) as nat),
    ensures
        forall|i: int| 0 <= i < 4 ==> #[trigger] bits_value(y, 31 - 8 * i, 8) == le_bytes(n as nat, 4)[i],
{
    assert forall|i: int| 0 <= i < 4 implies #[trigger] bits_value(y, 31 - 8 * i, 8) == le_bytes(
        n as nat,
        4,
    )[i] by {
        let base = int_pow(2, 8 * i as nat);
        let m = (n as nat) / base;
        lemma_int_pow_pos(2, 8 * i as nat);
        assert forall|q: int| 0 <= q < 8 implies y[31 - 8 * i - q] as nat == #[trigger] bit(m, q as nat) by {
            let k = 31 - 8 * i - q;
            assert(y[k] as nat == bit(n as nat, (31 - k) as nat));
            assert(31 - k == 8 * i + q);
            lemma_two_pow_adds(8 * i as nat, q as nat);
            lemma_int_pow_pos(2, q as nat);
            lemma_div_denominator(n as int, base as int, int_pow(2, q as nat) as int);
        }
        lemma_bits_value_low(y, 31 - 8 * i, 8, m);
        lemma_two_pow_values();
        lemma_pow256_two_pow(i as nat);
        lemma_le_bytes_index(n as nat, 4, i as nat);
    }
}

} // verus!
