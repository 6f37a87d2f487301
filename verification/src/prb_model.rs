//! The model of the printk ring buffer: sequence numbers, descriptor IDs and logical positions as
//! unbounded integers, and what they are in machine words.

use vstd::prelude::*;

#[allow(unused_imports)]
use crate::kfifo::is_power;

verus! {

/// How many machine words there are.
pub open spec fn words() -> int {
    0x1_0000_0000_0000_0000
}

/// How many descriptor IDs there are: the two upper bits of a word are the state.
pub open spec fn ids() -> int {
    0x4000_0000_0000_0000
}

/// A logical position as a machine word.
#[verifier::opaque]
pub open spec fn wd(p: int) -> u64 {
    (p % words()) as u64
}

/// The descriptor ID of the record with sequence number `s`, in a ring of `n` descriptors.
#[verifier::opaque]
pub open spec fn id_of(n: int, s: int) -> u64 {
    ((s - n) % ids()) as u64
}

/// Whether `n` can be a size of a ring: a power of two that a word count is a multiple of.
pub open spec fn ring_size(n: int) -> bool {
    &&& is_power(n)
    &&& 2 <= n <= 0x8000_0000
}

/// A power of two divides a larger one.
pub proof fn lemma_divides(n: int, m: int)
    requires
        is_power(n),
        is_power(m),
        n <= m,
    ensures
        n > 0,
        m % n == 0,
        m == n * (m / n),
        m / n > 0,
    decreases m,
{
    if n == 1 {
        assert(m / 1 == m);
    } else {
        lemma_divides(n / 2, m / 2);
        let a = n / 2;
        let b = m / 2;
        let k = b / a;
        assert(m == n * k) by (nonlinear_arith)
            requires
                b == a * k,
                m == 2 * b,
                n == 2 * a,
        ;
        vstd::arithmetic::div_mod::lemma_fundamental_div_mod_converse(m, n, k, 0);
    }
}

pub proof fn lemma_powers()
    ensures
        is_power(words()),
        is_power(ids()),
{
    assert(is_power(0x100)) by {
        reveal_with_fuel(is_power, 10);
    }
    assert(is_power(0x1_0000)) by {
        reveal_with_fuel(is_power, 10);
    }
    assert(is_power(0x100_0000)) by {
        reveal_with_fuel(is_power, 10);
    }
    assert(is_power(0x1_0000_0000)) by {
        reveal_with_fuel(is_power, 10);
    }
    assert(is_power(0x100_0000_0000)) by {
        reveal_with_fuel(is_power, 10);
    }
    assert(is_power(0x1_0000_0000_0000)) by {
        reveal_with_fuel(is_power, 10);
    }
    assert(is_power(0x100_0000_0000_0000)) by {
        reveal_with_fuel(is_power, 10);
    }
    assert(is_power(0x4000_0000_0000_0000)) by {
        reveal_with_fuel(is_power, 10);
    }
    assert(is_power(0x1_0000_0000_0000_0000)) by {
        reveal_with_fuel(is_power, 10);
    }
}

/// Reducing modulo a multiple first makes no difference.
pub proof fn lemma_mod_mod(x: int, d: int, m: int)
    requires
        d > 0,
        m > 0,
        m % d == 0,
    ensures
        (x % m) % d == x % d,
{
    let k = m / d;
    let q = x / m;
    vstd::arithmetic::div_mod::lemma_fundamental_div_mod(m, d);
    vstd::arithmetic::div_mod::lemma_fundamental_div_mod(x, m);
    assert(x == d * (k * q) + x % m) by (nonlinear_arith)
        requires
            m == d * k,
            x == m * q + x % m,
    ;
    vstd::arithmetic::div_mod::lemma_mod_multiples_vanish(k * q, x % m, d);
}

/// Positions in one turn of a ring do not meet.
pub proof fn lemma_distinct(p: int, q: int, d: int)
    requires
        d > 0,
        p != q,
        -d < p - q < d,
    ensures
        p % d != q % d,
{
    vstd::arithmetic::div_mod::lemma_fundamental_div_mod(p, d);
    vstd::arithmetic::div_mod::lemma_fundamental_div_mod(q, d);
    let a = p / d;
    let b = q / d;
    if p % d == q % d {
        assert(p - q == d * (a - b)) by (nonlinear_arith)
            requires
                p == d * a + p % d,
                q == d * b + q % d,
                p % d == q % d,
        ;
        assert(a == b) by (nonlinear_arith)
            requires
                p - q == d * (a - b),
                -d < p - q < d,
                d > 0,
        ;
    }
}

/// Where a position in the same turn of a ring lies.
pub proof fn lemma_offset(p: int, k: int, d: int)
    requires
        d > 0,
        0 <= k,
        p % d + k < d,
    ensures
        (p + k) % d == p % d + k,
        (p + k) / d == p / d,
{
    vstd::arithmetic::div_mod::lemma_fundamental_div_mod(p, d);
    let a = p / d;
    assert(p + k == a * d + (p % d + k)) by (nonlinear_arith)
        requires
            p == d * a + p % d,
    ;
    vstd::arithmetic::div_mod::lemma_fundamental_div_mod_converse(p + k, d, a, p % d + k);
}

/// Words count positions as integers do, as long as they are near each other.
pub proof fn lemma_wd_diff(a: int, b: int)
    requires
        0 <= a - b < words(),
    ensures
        wd(a).wrapping_sub(wd(b)) == a - b,
{
    reveal(wd);
}

pub proof fn lemma_wd_add(p: int, k: u64)
    ensures
        wd(p).wrapping_add(k) == wd(p + k),
        wd(p).wrapping_sub(k) == wd(p - k),
        wd(p + words()) == wd(p),
        p % 8 == 0 ==> wd(p) % 8 == 0,
{
    reveal(wd);
}

/// Two near positions are in the same turn of a ring exactly if their words are.
pub proof fn lemma_wd_turn(b: int, m: int, d: int)
    requires
        ring_size(d),
        -0x4_0000_0000 <= m - b <= 0x4_0000_0000,
    ensures
        (wd(b) as int / d == wd(m) as int / d) == (b / d == m / d),
        wd(b) as int % d == b % d,
{
    reveal(wd);
    lemma_powers();
    lemma_divides(d, words());
    lemma_mod_mod(b, d, words());
    let k = words() / d;
    lemma_wd_quotient(b, d, k);
    lemma_wd_quotient(m, d, k);
    let i = b / words();
    let j = m / words();
    let qb = b / d;
    let qm = m / d;
    assert(-0x4_0000_0000 <= qm - qb <= 0x4_0000_0000) by {
        vstd::arithmetic::div_mod::lemma_fundamental_div_mod(b, d);
        vstd::arithmetic::div_mod::lemma_fundamental_div_mod(m, d);
        assert(-0x4_0000_0000 <= qm - qb <= 0x4_0000_0000) by (nonlinear_arith)
            requires
                b == d * qb + b % d,
                m == d * qm + m % d,
                0 <= b % d < d,
                0 <= m % d < d,
                2 <= d <= 0x8000_0000,
                -0x4_0000_0000 <= m - b <= 0x4_0000_0000,
        ;
    }
    if wd(b) as int / d == wd(m) as int / d {
        assert(qm - qb == k * (j - i)) by (nonlinear_arith)
            requires
                qb - k * i == qm - k * j,
        ;
        assert(k >= 0x2_0000_0000) by (nonlinear_arith)
            requires
                words() == d * k,
                2 <= d <= 0x8000_0000,
                words() == 0x1_0000_0000_0000_0000,
        ;
        assert(i - 1 <= j <= i + 1);
        if j != i {
            lemma_one_turn(b, m, d, k, i, j);
        }
    } else if qb == qm {
        lemma_same_turn(b, m, d, k);
    }
}

/// The quotient of a word.
proof fn lemma_wd_quotient(b: int, d: int, k: int)
    requires
        d > 0,
        words() == d * k,
        k > 0,
    ensures
        wd(b) as int / d == b / d - k * (b / words()),
{
    reveal(wd);
    let i = b / words();
    vstd::arithmetic::div_mod::lemma_fundamental_div_mod(b, words());
    vstd::arithmetic::div_mod::lemma_fundamental_div_mod(b, d);
    let q = b / d;
    let r = b % d;
    assert(b % words() == (q - k * i) * d + r) by (nonlinear_arith)
        requires
            b == words() * i + b % words(),
            b == d * q + r,
            words() == d * k,
    ;
    vstd::arithmetic::div_mod::lemma_fundamental_div_mod_converse(b % words(), d, q - k * i, r);
}

/// Near positions in the same turn of the ring are in the same turn of the words.
proof fn lemma_same_turn(b: int, m: int, d: int, k: int)
    requires
        d > 0,
        k > 0,
        words() == d * k,
        b / d == m / d,
    ensures
        wd(b) as int / d == wd(m) as int / d,
{
    lemma_wd_quotient(b, d, k);
    lemma_wd_quotient(m, d, k);
    let q = b / d;
    // The turn of the words is a quotient of the turn of the ring.
    assert(b / words() == q / k) by {
        lemma_div_div(b, d, k);
    }
    assert(m / words() == q / k) by {
        lemma_div_div(m, d, k);
    }
}

proof fn lemma_div_div(b: int, d: int, k: int)
    requires
        d > 0,
        k > 0,
    ensures
        b / (d * k) == (b / d) / k,
{
    let q = b / d;
    let r = b % d;
    let u = q / k;
    let v = q % k;
    vstd::arithmetic::div_mod::lemma_fundamental_div_mod(b, d);
    vstd::arithmetic::div_mod::lemma_fundamental_div_mod(q, k);
    assert(b == u * (d * k) + (d * v + r) && 0 <= d * v + r < d * k && d * k > 0)
        by (nonlinear_arith)
        requires
            b == d * q + r,
            q == k * u + v,
            0 <= r < d,
            0 <= v < k,
            d > 0,
            k > 0,
    ;
    vstd::arithmetic::div_mod::lemma_fundamental_div_mod_converse(b, d * k, u, d * v + r);
}

/// Near positions in different turns of the words have different quotients.
proof fn lemma_one_turn(b: int, m: int, d: int, k: int, i: int, j: int)
    requires
        d > 0,
        k >= 0x2_0000_0000,
        i == b / words(),
        j == m / words(),
        j == i + 1 || j == i - 1,
        m / d - b / d == k * (j - i),
        -0x4_0000_0000 <= m - b <= 0x4_0000_0000,
        2 <= d,
        words() == d * k,
    ensures
        b / d == m / d,
{
    let qb = b / d;
    let qm = m / d;
    vstd::arithmetic::div_mod::lemma_fundamental_div_mod(b, d);
    vstd::arithmetic::div_mod::lemma_fundamental_div_mod(m, d);
    assert(qm == qb) by (nonlinear_arith)
        requires
            b == d * qb + b % d,
            m == d * qm + m % d,
            0 <= b % d < d,
            0 <= m % d < d,
            qm - qb == k * (j - i),
            j == i + 1 || j == i - 1,
            words() == d * k,
            words() == 0x1_0000_0000_0000_0000,
            d >= 2,
            k >= 0x2_0000_0000,
            -0x4_0000_0000 <= m - b <= 0x4_0000_0000,
    ;
}

/// IDs of records in one turn of the descriptor ring differ, and index the ring as sequence numbers
/// do.
pub proof fn lemma_id(n: int, s: int)
    requires
        ring_size(n),
    ensures
        0 <= id_of(n, s) < ids(),
        id_of(n, s) as int % n == s % n,
        id_of(n, s + 1) == (id_of(n, s) + 1) % ids(),
        id_of(n, s - n) == id_of(n, s).wrapping_sub(n as u64) % 0x4000_0000_0000_0000,
{
    reveal(id_of);
    lemma_powers();
    lemma_divides(n, ids());
    lemma_mod_mod(s - n, n, ids());
    vstd::arithmetic::div_mod::lemma_mod_sub_multiples_vanish(s, n);
}

pub proof fn lemma_id_distinct(n: int, s: int, q: int)
    requires
        -ids() < s - q < ids(),
    ensures
        id_of(n, s) == id_of(n, q) <==> s == q,
        0 <= s - q ==> id_of(n, s).wrapping_sub(id_of(n, q)) % 0x4000_0000_0000_0000 == s - q,
{
    reveal(id_of);
    if s != q {
        lemma_distinct(s - n, q - n, ids());
    }
}

/// The word of the beginning of a turn of a ring.
pub proof fn lemma_wd_floor(p: int, d: int)
    requires
        ring_size(d),
    ensures
        wd(p) as int % d == p % d,
        wd(p) - p % d == wd(p / d * d),
{
    lemma_wd_turn(p, p, d);
    vstd::arithmetic::div_mod::lemma_fundamental_div_mod(p, d);
    assert(p / d * d == d * (p / d)) by (nonlinear_arith);
    let k = p % d;
    assert(p / d * d == p - k);
    assert(k <= wd(p)) by {
        vstd::arithmetic::div_mod::lemma_mod_decreases(wd(p) as nat, d as nat);
    }
    lemma_wd_add(p, k as u64);
}

/// The IDs of the first records.
pub proof fn lemma_id_first(n: int)
    requires
        ring_size(n),
    ensures
        id_of(n, 0) == ids() - n,
        id_of(n, -1) == ids() - n - 1,
{
    reveal(id_of);
}

/// Records of one window have different descriptors.
pub proof fn lemma_ix(n: int, s: int, q: int)
    requires
        n > 0,
        -n < s - q < n,
    ensures
        s % n == q % n <==> s == q,
        0 <= s % n < n,
{
    if s != q {
        lemma_distinct(s, q, n);
    }
}

/// Powers of two are sizes of rings.
pub proof fn lemma_bits(bits: nat)
    requires
        bits <= 31,
    ensures
        is_power(vstd::arithmetic::power2::pow2(bits) as int),
        vstd::arithmetic::power2::pow2(bits) <= 0x8000_0000,
        bits >= 1 ==> ring_size(vstd::arithmetic::power2::pow2(bits) as int),
        bits >= 3 ==> vstd::arithmetic::power2::pow2(bits) % 8 == 0,
        1u64 << (bits as u64) == vstd::arithmetic::power2::pow2(bits),
{
    lemma_pow2_is_power(bits);
    vstd::arithmetic::power2::lemma2_to64();
    if bits < 31 {
        vstd::arithmetic::power2::lemma_pow2_strictly_increases(bits, 31);
    }
    if bits > 1 {
        vstd::arithmetic::power2::lemma_pow2_strictly_increases(1, bits);
    }
    if bits >= 3 {
        vstd::arithmetic::power2::lemma_pow2_adds(3, (bits - 3) as nat);
        let k = vstd::arithmetic::power2::pow2((bits - 3) as nat);
        assert(vstd::arithmetic::power2::pow2(bits) == 8 * k);
    }
    vstd::bits::lemma_u64_shl_is_mul(1, bits as u64);
}

proof fn lemma_pow2_is_power(bits: nat)
    ensures
        is_power(vstd::arithmetic::power2::pow2(bits) as int),
    decreases bits,
{
    if bits == 0 {
        vstd::arithmetic::power2::lemma2_to64();
    } else {
        lemma_pow2_is_power((bits - 1) as nat);
        vstd::arithmetic::power2::lemma_pow2_unfold(bits);
        vstd::arithmetic::power2::lemma_pow2_pos((bits - 1) as nat);
    }
}

} // verus!
