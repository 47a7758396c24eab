//! Size-class geometry: order/size mapping, alignment helpers, and the
//! arithmetic facts about power-of-two blocks that the allocator's proofs
//! rest on.

use vstd::prelude::*;
use vstd::arithmetic::div_mod::lemma_fundamental_div_mod;
use vstd::arithmetic::div_mod::lemma_mod_multiples_basic;

verus! {

/// Bookkeeping granularity: one page unit, in bytes.
pub const UNIT: usize = 4096;

/// Number of size classes: orders 0 through 8.
pub const ORDER_COUNT: usize = 9;

/// The highest order, i.e. the smallest block (one unit).
pub const MAX_ORDER: usize = 8;

/// Largest single allocation: the byte size of an order-0 block.
pub const MAX_BLOCK_BYTES: usize = 1048576;

/// Sentinel link value meaning "no neighbour".
pub const NIL: usize = usize::MAX;

/// Bytes of page-table bookkeeping kept per unit (five machine words).
pub const PAGE_META_BYTES: usize = 40;

/// Upper bound on the number of units an arena may contain (a 2 GiB
/// arena), so that unit arithmetic stays within `usize` on any target.
pub const MAX_PAGES: usize = 0x8_0000;

/// Size of a block at order `o`, in units.
pub open spec fn block_units(o: int) -> int {
    (1usize << ((8 - o) as usize)) as int
}

/// Size of a block at order `o`, in bytes.
pub open spec fn block_bytes(o: int) -> int {
    (4096usize << ((8 - o) as usize)) as int
}

/// Whether `n` is a power of two.
pub open spec fn is_pow2(n: usize) -> bool {
    exists|k: usize| k < 64 && n == (1usize << k)
}

/// The order a request of `n` bytes maps to: the smallest block of at
/// least `n` bytes.  Meaningful for `1 <= n <= MAX_BLOCK_BYTES`.
pub open spec fn order_of(n: int) -> int {
    if n <= 4096 {
        8
    } else if n <= 8192 {
        7
    } else if n <= 16384 {
        6
    } else if n <= 32768 {
        5
    } else if n <= 65536 {
        4
    } else if n <= 131072 {
        3
    } else if n <= 262144 {
        2
    } else if n <= 524288 {
        1
    } else {
        0
    }
}

/// Concrete values of the block-size tables, so that later proofs can
/// reason about them with plain linear arithmetic.
pub proof fn lemma_block_table()
    ensures
        block_units(0) == 256,
        block_units(1) == 128,
        block_units(2) == 64,
        block_units(3) == 32,
        block_units(4) == 16,
        block_units(5) == 8,
        block_units(6) == 4,
        block_units(7) == 2,
        block_units(8) == 1,
        block_bytes(0) == 1048576,
        block_bytes(1) == 524288,
        block_bytes(2) == 262144,
        block_bytes(3) == 131072,
        block_bytes(4) == 65536,
        block_bytes(5) == 32768,
        block_bytes(6) == 16384,
        block_bytes(7) == 8192,
        block_bytes(8) == 4096,
        forall|o: int| 0 <= o <= 8 ==> #[trigger] block_bytes(o) == 4096 * block_units(o),
        forall|o: int| 0 <= o < 8 ==> #[trigger] block_units(o) == 2 * block_units(o + 1),
        forall|o: int| 0 <= o <= 8 ==> 1 <= #[trigger] block_units(o) <= 256,
{
    assert(1usize << 8 == 256 && 1usize << 7 == 128 && 1usize << 6 == 64 && 1usize << 5 == 32
        && 1usize << 4 == 16 && 1usize << 3 == 8 && 1usize << 2 == 4 && 1usize << 1 == 2
        && 1usize << 0 == 1) by (bit_vector);
    assert(4096usize << 8 == 1048576 && 4096usize << 7 == 524288 && 4096usize << 6 == 262144
        && 4096usize << 5 == 131072 && 4096usize << 4 == 65536 && 4096usize << 3 == 32768
        && 4096usize << 2 == 16384 && 4096usize << 1 == 8192 && 4096usize << 0 == 4096)
        by (bit_vector);
}

/// A number divisible by `a` is divisible by every positive divisor of `a`.
pub proof fn lemma_mod_transfer(i: int, a: int, b: int)
    requires
        0 <= i,
        0 < b <= a,
        a % b == 0,
        i % a == 0,
    ensures
        i % b == 0,
{
    lemma_fundamental_div_mod(i, a);
    lemma_fundamental_div_mod(a, b);
    let q = i / a;
    let r = a / b;
    assert(i == b * (r * q)) by (nonlinear_arith)
        requires
            i == a * q,
            a == b * r,
    ;
    lemma_mod_multiples_basic(r * q, b);
    assert((b * (r * q)) % b == 0);
}

/// A start aligned for order `o` is aligned for every higher order, i.e.
/// for every smaller block size.
pub proof fn lemma_align_widen(i: int, o1: int, o2: int)
    requires
        0 <= o1 <= o2 <= 8,
        0 <= i,
        i % block_units(o1) == 0,
    ensures
        i % block_units(o2) == 0,
{
    lemma_block_table();
    let k1 = (8 - o1) as usize;
    let k2 = (8 - o2) as usize;
    assert((1usize << k1) % (1usize << k2) == 0 && 1usize << k2 <= 1usize << k1)
        by (bit_vector)
        requires
            k2 <= k1 <= 8,
    ;
    assert(block_units(o1) % block_units(o2) == 0);
    lemma_mod_transfer(i, block_units(o1), block_units(o2));
}

/// Adding a multiple of `m` preserves divisibility by `m`.
pub proof fn lemma_mod_add_self(i: int, k: int, m: int)
    requires
        0 < m,
        0 <= i,
        0 <= k,
        i % m == 0,
    ensures
        (i + k * m) % m == 0,
{
    lemma_fundamental_div_mod(i, m);
    let q = i / m;
    assert(i + k * m == m * (q + k)) by (nonlinear_arith)
        requires
            i == m * q,
    ;
    lemma_mod_multiples_basic(q + k, m);
}

/// Scaling both the value and the modulus preserves divisibility.
pub proof fn lemma_mod_scale(i: int, m: int, c: int)
    requires
        0 < m,
        0 < c,
        0 <= i,
        i % m == 0,
    ensures
        (c * i) % (c * m) == 0,
        (c * i) / c == i,
{
    lemma_fundamental_div_mod(i, m);
    let q = i / m;
    assert(c * i == q * (c * m)) by (nonlinear_arith)
        requires
            i == m * q,
    ;
    assert(c * m > 0) by (nonlinear_arith)
        requires
            c > 0,
            m > 0,
    ;
    lemma_mod_multiples_basic(q, c * m);
    vstd::arithmetic::div_mod::lemma_div_multiples_vanish(i, c);
}

/// Cancelling a common positive factor preserves divisibility.
pub proof fn lemma_mod_unscale(x: int, m: int, c: int)
    requires
        0 < m,
        0 < c,
        0 <= x,
        (c * x) % (c * m) == 0,
    ensures
        x % m == 0,
{
    assert(c * m > 0) by (nonlinear_arith)
        requires
            c > 0,
            m > 0,
    ;
    lemma_fundamental_div_mod(c * x, c * m);
    let q = (c * x) / (c * m);
    assert(x == m * q) by (nonlinear_arith)
        requires
            c * x == (c * m) * q,
            c > 0,
    ;
    lemma_mod_multiples_basic(q, m);
    assert(x == q * m) by (nonlinear_arith)
        requires
            x == m * q,
    ;
}

/// The order assigned to an accepted request size fits it: the block is
/// large enough, and one order smaller would be too small.
pub proof fn lemma_order_bounds(n: int)
    requires
        1 <= n <= 1048576,
    ensures
        0 <= order_of(n) <= 8,
        n <= block_bytes(order_of(n)),
        order_of(n) < 8 ==> block_bytes(order_of(n) + 1) < n,
{
    lemma_block_table();
}

/// Round `n` down to a multiple of `t`.
pub fn align_b(n: usize, t: usize) -> (r: usize)
    requires
        t >= 1,
    ensures
        r == n - n % t,
        r % t == 0,
        r <= n < r + t,
{
    proof {
        lemma_fundamental_div_mod(n as int, t as int);
        lemma_mod_multiples_basic(n as int / t as int, t as int);
        assert(t * (n as int / t as int) == (n as int / t as int) * t) by (nonlinear_arith);
    }
    n / t * t
}

/// Round `n` up to a multiple of `t`.
pub fn align_f(n: usize, t: usize) -> (r: usize)
    requires
        t >= 1,
        n >= 1,
        n + t - 1 <= usize::MAX,
    ensures
        r % t == 0,
        n <= r < n + t,
{
    let r = align_b(n - 1, t);
    proof {
        lemma_mod_add_self(r as int, 1, t as int);
    }
    r + t
}

} // verus!
